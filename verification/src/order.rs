//! Ordering things by keys: a stable merge sort that returns positions.
use vstd::prelude::*;

verus! {

/// A piece of a sort key: it has a rank, and ranks order keys.
pub trait Rank: Sized {
    /// The rank of the piece.
    spec fn rank(&self) -> u64;

    /// The rank of the piece.
    fn rank_of(&self) -> (r: u64)
        ensures
            r == self.rank(),
    ;
}

impl Rank for u8 {
    open spec fn rank(&self) -> u64 {
        *self as u64
    }

    fn rank_of(&self) -> (r: u64) {
        *self as u64
    }
}

impl Rank for u64 {
    open spec fn rank(&self) -> u64 {
        *self
    }

    fn rank_of(&self) -> (r: u64) {
        *self
    }
}

/// The ranks of a key.
pub open spec fn ranks<W: Rank>(key: Seq<W>) -> Seq<u64> {
    Seq::new(key.len(), |i: int| key[i].rank())
}

/// The ranks of keys.
pub open spec fn all_ranks<W: Rank>(keys: Seq<Vec<W>>) -> Seq<Seq<u64>> {
    Seq::new(keys.len(), |i: int| ranks(keys[i]@))
}

/// `a` comes before `b` where they first differ, or ends first.
pub open spec fn lex_less(a: Seq<u64>, b: Seq<u64>) -> bool
    decreases a.len(),
{
    if b.len() == 0 {
        false
    } else if a.len() == 0 {
        true
    } else if a[0] != b[0] {
        a[0] < b[0]
    } else {
        lex_less(a.skip(1), b.skip(1))
    }
}

/// Item `x` goes before item `y`: by its key, or by its position where the keys are
/// the same.
pub open spec fn precedes(keys: Seq<Seq<u64>>, x: int, y: int) -> bool {
    lex_less(keys[x], keys[y]) || (keys[x] == keys[y] && x < y)
}

/// `order` lists the positions `from..to`, each once, those that go before others
/// first.
pub open spec fn is_order(keys: Seq<Seq<u64>>, order: Seq<usize>, from: int, to: int) -> bool {
    &&& order.len() == to - from
    &&& forall|x: int| from <= x < to ==> #[trigger] order.contains(x as usize)
    &&& forall|i: int| 0 <= i < order.len() ==> from <= #[trigger] order[i] < to
    &&& forall|i: int, j: int|
        0 <= i < j < order.len() ==> precedes(
            keys,
            #[trigger] order[i] as int,
            #[trigger] order[j] as int,
        )
}

proof fn lex_is_irreflexive(a: Seq<u64>)
    ensures
        !lex_less(a, a),
    decreases a.len(),
{
    if a.len() > 0 {
        lex_is_irreflexive(a.skip(1));
    }
}

proof fn lex_is_transitive(a: Seq<u64>, b: Seq<u64>, c: Seq<u64>)
    requires
        lex_less(a, b),
        lex_less(b, c),
    ensures
        lex_less(a, c),
    decreases a.len(),
{
    if a.len() > 0 && a[0] == b[0] && b[0] == c[0] {
        lex_is_transitive(a.skip(1), b.skip(1), c.skip(1));
    }
}

proof fn lex_is_total(a: Seq<u64>, b: Seq<u64>)
    ensures
        lex_less(a, b) || lex_less(b, a) || a == b,
    decreases a.len(),
{
    if a.len() == 0 || b.len() == 0 {
        if a.len() == 0 && b.len() == 0 {
            assert(a =~= b);
        }
    } else if a[0] == b[0] {
        lex_is_total(a.skip(1), b.skip(1));
        if a.skip(1) == b.skip(1) {
            assert(seq![a[0]] + a.skip(1) =~= a);
            assert(seq![b[0]] + b.skip(1) =~= b);
        }
    }
}

/// Which of two items goes first is settled, and carries over.
pub proof fn precedence_is_total(keys: Seq<Seq<u64>>, x: int, y: int)
    ensures
        x != y ==> precedes(keys, x, y) || precedes(keys, y, x),
        !(precedes(keys, x, y) && precedes(keys, y, x)),
        !precedes(keys, x, x),
{
    lex_is_total(keys[x], keys[y]);
    lex_is_irreflexive(keys[x]);
    lex_is_irreflexive(keys[y]);
    if lex_less(keys[x], keys[y]) && lex_less(keys[y], keys[x]) {
        lex_is_transitive(keys[x], keys[y], keys[x]);
    }
}

proof fn precedence_is_transitive(keys: Seq<Seq<u64>>, x: int, y: int, z: int)
    requires
        precedes(keys, x, y),
        precedes(keys, y, z),
    ensures
        precedes(keys, x, z),
{
    if lex_less(keys[x], keys[y]) && lex_less(keys[y], keys[z]) {
        lex_is_transitive(keys[x], keys[y], keys[z]);
    }
}

fn key_less<W: Rank>(a: &Vec<W>, b: &Vec<W>) -> (r: bool)
    ensures
        r == lex_less(ranks(a@), ranks(b@)),
{
    let ghost x = ranks(a@);
    let ghost y = ranks(b@);
    let mut i: usize = 0;
    assert(x.skip(0) =~= x);
    assert(y.skip(0) =~= y);
    while i < a.len() && i < b.len()
        invariant
            x == ranks(a@),
            y == ranks(b@),
            i <= a@.len(),
            i <= b@.len(),
            lex_less(x, y) == lex_less(x.skip(i as int), y.skip(i as int)),
        decreases a.len() - i,
    {
        let p: u64 = a[i].rank_of();
        let q: u64 = b[i].rank_of();
        assert(x.skip(i as int)[0] == p);
        assert(y.skip(i as int)[0] == q);
        if p != q {
            return p < q;
        }
        assert(x.skip(i as int).skip(1) =~= x.skip(i + 1));
        assert(y.skip(i as int).skip(1) =~= y.skip(i + 1));
        i += 1;
    }
    i < b.len()
}

fn merge<W: Rank>(
    keys: &[Vec<W>],
    left: Vec<usize>,
    right: Vec<usize>,
    Ghost(from): Ghost<int>,
    Ghost(middle): Ghost<int>,
    Ghost(to): Ghost<int>,
) -> (r: Vec<usize>)
    requires
        0 <= from <= middle <= to <= keys@.len(),
        is_order(all_ranks(keys@), left@, from, middle),
        is_order(all_ranks(keys@), right@, middle, to),
    ensures
        is_order(all_ranks(keys@), r@, from, to),
{
    let ghost k = all_ranks(keys@);
    let mut r: Vec<usize> = Vec::new();
    let mut i: usize = 0;
    let mut j: usize = 0;
    while i < left.len() || j < right.len()
        invariant
            k == all_ranks(keys@),
            0 <= from <= middle <= to <= keys@.len(),
            is_order(k, left@, from, middle),
            is_order(k, right@, middle, to),
            i <= left@.len(),
            j <= right@.len(),
            r@.len() == i + j,
            forall|a: int| 0 <= a < i ==> r@.contains(#[trigger] left@[a]),
            forall|a: int| 0 <= a < j ==> r@.contains(#[trigger] right@[a]),
            forall|a: int| 0 <= a < r@.len() ==> from <= #[trigger] r@[a] < to,
            forall|a: int, b: int|
                0 <= a < b < r@.len() ==> precedes(
                    k,
                    #[trigger] r@[a] as int,
                    #[trigger] r@[b] as int,
                ),
            forall|a: int, b: int|
                0 <= a < r@.len() && i <= b < left@.len() ==> precedes(
                    k,
                    #[trigger] r@[a] as int,
                    #[trigger] left@[b] as int,
                ),
            forall|a: int, b: int|
                0 <= a < r@.len() && j <= b < right@.len() ==> precedes(
                    k,
                    #[trigger] r@[a] as int,
                    #[trigger] right@[b] as int,
                ),
        decreases left.len() - i + right.len() - j,
    {
        let take_left = if i < left.len() && j < right.len() {
            let x: usize = left[i];
            let y: usize = right[j];
            assert(from <= left@[i as int] < middle);
            assert(middle <= right@[j as int] < to);
            let right_first = key_less(&keys[y], &keys[x]);
            assert(ranks(keys@[y as int]@) == k[y as int]);
            assert(ranks(keys@[x as int]@) == k[x as int]);
            proof {
                lex_is_total(k[x as int], k[y as int]);
                if !right_first {
                    assert(precedes(k, x as int, y as int));
                } else {
                    assert(precedes(k, y as int, x as int));
                }
            }
            !right_first
        } else {
            i < left.len()
        };
        let ghost before = r@;
        let next: usize = if take_left {
            left[i]
        } else {
            right[j]
        };
        proof {
            assert forall|b: int| i <= b < left@.len() && left@[b] != next implies precedes(
                k,
                next as int,
                #[trigger] left@[b] as int,
            ) by {
                if take_left {
                    assert(precedes(k, left@[i as int] as int, left@[b] as int));
                } else if b > i {
                    assert(precedes(k, left@[i as int] as int, left@[b] as int));
                    precedence_is_transitive(
                        k,
                        next as int,
                        left@[i as int] as int,
                        left@[b] as int,
                    );
                }
            }
            assert forall|b: int| j <= b < right@.len() && right@[b] != next implies precedes(
                k,
                next as int,
                #[trigger] right@[b] as int,
            ) by {
                if !take_left {
                    assert(precedes(k, right@[j as int] as int, right@[b] as int));
                } else if b > j {
                    assert(precedes(k, right@[j as int] as int, right@[b] as int));
                    precedence_is_transitive(
                        k,
                        next as int,
                        right@[j as int] as int,
                        right@[b] as int,
                    );
                }
            }
            assert forall|b: int| i < b < left@.len() implies left@[b] != left@[i as int] by {
                precedence_is_total(k, left@[i as int] as int, left@[b] as int);
                assert(precedes(k, left@[i as int] as int, left@[b] as int));
            }
            assert forall|b: int| j < b < right@.len() implies right@[b] != right@[j as int] by {
                precedence_is_total(k, right@[j as int] as int, right@[b] as int);
                assert(precedes(k, right@[j as int] as int, right@[b] as int));
            }
        }
        r.push(next);
        proof {
            assert(r@[before.len() as int] == next);
            assert forall|v: usize| before.contains(v) implies r@.contains(v) by {
                let a = choose|a: int| 0 <= a < before.len() && before[a] == v;
                assert(r@[a] == v);
            }
            assert(r@.contains(next));
            if take_left {
                assert(from <= left@[i as int] < middle);
            } else {
                assert(middle <= right@[j as int] < to);
            }
        }
        if take_left {
            i += 1;
        } else {
            j += 1;
        }
    }
    proof {
        assert forall|x: int| from <= x < to implies #[trigger] r@.contains(x as usize) by {
            if x < middle {
                assert(left@.contains(x as usize));
                let a = choose|a: int| 0 <= a < left@.len() && left@[a] == x as usize;
                assert(r@.contains(left@[a]));
            } else {
                assert(right@.contains(x as usize));
                let a = choose|a: int| 0 <= a < right@.len() && right@[a] == x as usize;
                assert(r@.contains(right@[a]));
            }
        }
    }
    r
}

fn order_range<W: Rank>(keys: &[Vec<W>], from: usize, to: usize) -> (r: Vec<usize>)
    requires
        from <= to <= keys@.len(),
    ensures
        is_order(all_ranks(keys@), r@, from as int, to as int),
    decreases to - from,
{
    let mut r: Vec<usize> = Vec::new();
    if to - from == 0 {
        return r;
    }
    if to - from == 1 {
        r.push(from);
        assert(r@[0] == from);
        return r;
    }
    let middle: usize = from + (to - from) / 2;
    let left = order_range(keys, from, middle);
    let right = order_range(keys, middle, to);
    merge(keys, left, right, Ghost(from as int), Ghost(middle as int), Ghost(to as int))
}

/// The positions of the keys in ascending order; of equal keys the earlier comes
/// first.
pub fn stable_order<W: Rank>(keys: &[Vec<W>]) -> (r: Vec<usize>)
    ensures
        is_order(all_ranks(keys@), r@, 0, keys@.len() as int),
{
    order_range(keys, 0, keys.len())
}

/// `a` and `b` agree in their first `k` pieces, and then `a` ends or has the smaller piece.
pub open spec fn parts_at(a: Seq<u64>, b: Seq<u64>, k: int) -> bool {
    &&& 0 <= k <= a.len()
    &&& k < b.len()
    &&& forall|i: int| 0 <= i < k ==> #[trigger] a[i] == b[i]
    &&& k == a.len() || a[k] < b[k]
}

/// One key comes before another exactly where they agree up to some piece and the first then ends or
/// has the smaller one.
pub proof fn keys_are_ordered_by_their_first_difference(a: Seq<u64>, b: Seq<u64>)
    ensures
        lex_less(a, b) <==> exists|k: int| parts_at(a, b, k),
    decreases a.len(),
{
    if b.len() == 0 {
    } else if a.len() == 0 {
        assert(parts_at(a, b, 0));
    } else if a[0] != b[0] {
        if a[0] < b[0] {
            assert(parts_at(a, b, 0));
        }
        if exists|k: int| parts_at(a, b, k) {
            let k = choose|k: int| parts_at(a, b, k);
            if k > 0 {
                assert(a[0] == b[0]);
            }
        }
    } else {
        let x = a.skip(1);
        let y = b.skip(1);
        keys_are_ordered_by_their_first_difference(x, y);
        if lex_less(x, y) {
            let k = choose|k: int| parts_at(x, y, k);
            assert forall|i: int| 0 <= i < k + 1 implies #[trigger] a[i] == b[i] by {
                if i > 0 {
                    assert(x[i - 1] == y[i - 1]);
                }
            }
            assert(parts_at(a, b, k + 1));
        }
        if exists|k: int| parts_at(a, b, k) {
            let k = choose|k: int| parts_at(a, b, k);
            assert(k > 0);
            assert forall|i: int| 0 <= i < k - 1 implies #[trigger] x[i] == y[i] by {
                assert(a[i + 1] == b[i + 1]);
            }
            assert(parts_at(x, y, k - 1));
        }
    }
}

} // verus!
