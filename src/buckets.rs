use vstd::prelude::*;

verus! {

/// `m` holds `j` in the list kept under `k`.
pub open spec fn holds<K>(m: Map<K, Seq<usize>>, k: K, j: usize) -> bool {
    m.contains_key(k) && m[k].contains(j)
}

/// Every list of `m` is non-empty and strictly increasing.
pub open spec fn lists_ordered<K>(m: Map<K, Seq<usize>>) -> bool {
    &&& forall|k: K| #[trigger] m.contains_key(k) ==> m[k].len() > 0
    &&& forall|k: K, p: int, q: int|
        m.contains_key(k) && 0 <= p < q < m[k].len() ==> #[trigger] m[k][p] < #[trigger] m[k][q]
}

/// `after` is `before` with `i` appended to the list under `key`, a list that
/// starts empty when `key` is new.
pub open spec fn appended<K>(before: Map<K, Seq<usize>>, after: Map<K, Seq<usize>>, key: K, i: usize) -> bool {
    after == before.insert(key, if before.contains_key(key) { before[key].push(i) } else { seq![i] })
}

/// Appending `i` adds exactly `i` under `key`, and keeps the lists ordered when
/// `i` exceeds what `key` already holds.
pub proof fn lemma_appended<K>(before: Map<K, Seq<usize>>, after: Map<K, Seq<usize>>, key: K, i: usize)
    requires
        appended(before, after, key, i),
        lists_ordered(before),
        forall|j: usize| holds(before, key, j) ==> j < i,
    ensures
        lists_ordered(after),
        forall|k: K, j: usize| #[trigger] holds(after, k, j) <==> (holds(before, k, j) || (k == key && j == i)),
{
    assert forall|k: K, j: usize| #[trigger] holds(after, k, j) <==> (holds(before, k, j) || (k == key && j == i)) by {
        if k == key {
            if before.contains_key(k) {
                assert(after[k] == before[k].push(i));
                if before[k].contains(j) {
                    let t = choose|t: int| 0 <= t < before[k].len() && before[k][t] == j;
                    assert(after[k][t] == j);
                }
                if after[k].contains(j) && j != i {
                    let t = choose|t: int| 0 <= t < after[k].len() && after[k][t] == j;
                    assert(before[k][t] == j);
                }
                assert(after[k][before[k].len() as int] == i);
            } else {
                assert(after[k] == seq![i]);
                assert(after[k][0] == i);
            }
        } else if before.contains_key(k) {
            assert(after[k] == before[k]);
        }
    }
    assert forall|k: K, p: int, q: int| after.contains_key(k) && 0 <= p < q < after[k].len() implies #[trigger] after[k][p]
        < #[trigger] after[k][q] by {
        if k == key && before.contains_key(k) {
            assert(after[k] == before[k].push(i));
            if q == before[k].len() {
                assert(holds(before, k, after[k][p]));
            }
        } else if k == key {
            assert(after[k] == seq![i]);
        } else {
            assert(after[k] == before[k]);
        }
    }
    assert forall|k: K| #[trigger] after.contains_key(k) implies after[k].len() > 0 by {
        if k == key && before.contains_key(k) {
            assert(after[k] == before[k].push(i));
        } else if k != key {
            assert(after[k] == before[k]);
        }
    }
}

} // verus!
