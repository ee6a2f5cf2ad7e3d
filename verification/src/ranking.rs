//! What the answer to a nearest-neighbour query is.
//!
//! A query ranks the stored identifiers by the key of their distance to the
//! query vector, nearest first. Two identifiers at the same distance are
//! ranked by the identifiers themselves, so the ranking depends on what is
//! stored and not on the order in which it was inserted.

use crate::text::{lemma_text_order, text_precedes};
use crate::types::{lemma_precedes_is_strict_total_order, Distance};
use vstd::prelude::*;
use vstd::set_lib::{lemma_len_subset, lemma_subset_equality};

verus! {

/// `a` is ranked before `b`: its distance comes first, or the distances are
/// the same and `a` is the smaller identifier.
pub open spec fn nearer(dist: Map<Seq<char>, Distance>, a: Seq<char>, b: Seq<char>) -> bool {
    dist[a].precedes(dist[b]) || (dist[a] == dist[b] && text_precedes(a, b))
}

/// `found` is the answer for `k` neighbours among the identifiers of `dist`:
/// the `k` best ranked identifiers (all of them if there are fewer than `k`),
/// best first.
pub open spec fn is_nearest(dist: Map<Seq<char>, Distance>, k: nat, found: Seq<Seq<char>>) -> bool {
    &&& dist.dom().finite()
    &&& found.len() == if k <= dist.dom().len() {
        k
    } else {
        dist.dom().len()
    }
    &&& forall|p: int| 0 <= p < found.len() ==> dist.dom().contains(#[trigger] found[p])
    &&& forall|p: int, q: int|
        0 <= p < q < found.len() ==> #[trigger] nearer(dist, found[p], found[q])
    &&& forall|p: int, id: Seq<char>|
        0 <= p < found.len() && dist.dom().contains(id) && !found.contains(id)
            ==> #[trigger] nearer(dist, found[p], id)
}

/// The ranking is a strict total order of identifiers.
pub proof fn lemma_nearer_is_strict_total_order(
    dist: Map<Seq<char>, Distance>,
    a: Seq<char>,
    b: Seq<char>,
    c: Seq<char>,
)
    ensures
        !nearer(dist, a, a),
        nearer(dist, a, b) && nearer(dist, b, c) ==> nearer(dist, a, c),
        nearer(dist, a, b) || a == b || nearer(dist, b, a),
        !(nearer(dist, a, b) && nearer(dist, b, a)),
{
    lemma_precedes_is_strict_total_order(dist[a], dist[b], dist[c]);
    lemma_text_order(a, b, c);
}

/// An answer names no identifier twice.
pub proof fn lemma_nearest_has_no_duplicates(
    dist: Map<Seq<char>, Distance>,
    k: nat,
    found: Seq<Seq<char>>,
)
    requires
        is_nearest(dist, k, found),
    ensures
        found.no_duplicates(),
{
    assert forall|p: int, q: int| 0 <= p < found.len() && 0 <= q < found.len() && p != q implies found[p] != found[q] by {
        lemma_nearer_is_strict_total_order(dist, found[p], found[q], found[p]);
        if p < q {
            assert(nearer(dist, found[p], found[q]));
        } else {
            assert(nearer(dist, found[q], found[p]));
        }
    }
}

/// An answer is in ascending order of distance.
pub proof fn lemma_nearest_is_ascending(
    dist: Map<Seq<char>, Distance>,
    k: nat,
    found: Seq<Seq<char>>,
    p: int,
    q: int,
)
    requires
        is_nearest(dist, k, found),
        0 <= p <= q < found.len(),
    ensures
        !dist[found[q]].precedes(dist[found[p]]),
{
    lemma_precedes_is_strict_total_order(dist[found[p]], dist[found[q]], dist[found[p]]);
    if p < q {
        assert(nearer(dist, found[p], found[q]));
    }
}

/// Two answers to the same query agree at position `p`.
proof fn lemma_nearest_agree_at(
    dist: Map<Seq<char>, Distance>,
    k: nat,
    a: Seq<Seq<char>>,
    b: Seq<Seq<char>>,
    p: int,
)
    requires
        is_nearest(dist, k, a),
        is_nearest(dist, k, b),
        0 <= p < a.len(),
    ensures
        a[p] == b[p],
    decreases p,
{
    assert forall|q: int| 0 <= q < p implies a[q] == b[q] by {
        lemma_nearest_agree_at(dist, k, a, b, q);
    }
    let x = a[p];
    let y = b[p];
    lemma_nearer_is_strict_total_order(dist, x, y, x);
    if nearer(dist, x, y) {
        lemma_first_is_shared(dist, k, b, a, p);
    } else if nearer(dist, y, x) {
        lemma_first_is_shared(dist, k, a, b, p);
    }
}

/// If two answers agree before position `p`, the first cannot hold at `p`
/// an identifier ranked after the one that the second holds there.
proof fn lemma_first_is_shared(
    dist: Map<Seq<char>, Distance>,
    k: nat,
    a: Seq<Seq<char>>,
    b: Seq<Seq<char>>,
    p: int,
)
    requires
        is_nearest(dist, k, a),
        is_nearest(dist, k, b),
        0 <= p < a.len(),
        forall|q: int| 0 <= q < p ==> a[q] == b[q],
    ensures
        !nearer(dist, b[p], a[p]),
{
    let x = b[p];
    let y = a[p];
    if nearer(dist, x, y) {
        lemma_nearer_is_strict_total_order(dist, x, y, x);
        if a.contains(x) {
            let q = choose|q: int| 0 <= q < a.len() && a[q] == x;
            if q < p {
                assert(nearer(dist, b[q], b[p]));
            } else if q > p {
                assert(nearer(dist, a[p], a[q]));
            }
        } else {
            assert(nearer(dist, a[p], x));
        }
    }
}

/// A query has one answer only.
pub proof fn lemma_nearest_is_unique(
    dist: Map<Seq<char>, Distance>,
    k: nat,
    a: Seq<Seq<char>>,
    b: Seq<Seq<char>>,
)
    requires
        is_nearest(dist, k, a),
        is_nearest(dist, k, b),
    ensures
        a == b,
{
    assert forall|p: int| 0 <= p < a.len() implies a[p] == b[p] by {
        lemma_nearest_agree_at(dist, k, a, b, p);
    }
    assert(a =~= b);
}

/// Asked for at least as many neighbours as there are identifiers, a query
/// answers with every identifier.
pub proof fn lemma_nearest_holds_all(
    dist: Map<Seq<char>, Distance>,
    k: nat,
    found: Seq<Seq<char>>,
)
    requires
        is_nearest(dist, k, found),
        k >= dist.dom().len(),
    ensures
        found.len() == dist.dom().len(),
        found.to_set() == dist.dom(),
{
    lemma_nearest_has_no_duplicates(dist, k, found);
    found.unique_seq_to_set();
    let named = found.to_set();
    assert(named.subset_of(dist.dom())) by {
        assert forall|id: Seq<char>| named.contains(id) implies dist.dom().contains(id) by {
            let p = choose|p: int| 0 <= p < found.len() && found[p] == id;
            assert(dist.dom().contains(found[p]));
        }
    }
    lemma_len_subset(named, dist.dom());
    lemma_subset_equality(named, dist.dom());
}

/// The distance key of each identifier, where `keys[i]` is the key of
/// `ids[i]`.
pub open spec fn keyed(ids: Seq<Seq<char>>, keys: Seq<Distance>) -> Map<Seq<char>, Distance> {
    Map::new(|id: Seq<char>| ids.contains(id), |id: Seq<char>| keys[ids.index_of(id)])
}

/// Entry `i` is ranked before entry `j`, where entry `i` has the key
/// `keys[i]` and the identifier `ids[i]`.
pub open spec fn ranks_before(keys: Seq<Distance>, ids: Seq<Seq<char>>, i: int, j: int) -> bool {
    keys[i].precedes(keys[j]) || (keys[i] == keys[j] && text_precedes(ids[i], ids[j]))
}

/// `best` holds the positions of the `k` best ranked of the first `seen`
/// entries (of all of them if `seen` is less than `k`), best first.
pub open spec fn selects(
    keys: Seq<Distance>,
    ids: Seq<Seq<char>>,
    seen: int,
    k: int,
    best: Seq<usize>,
) -> bool {
    &&& best.len() == if seen <= k {
        seen
    } else {
        k
    }
    &&& forall|p: int| 0 <= p < best.len() ==> (#[trigger] best[p]) < seen
    &&& forall|p: int, q: int|
        0 <= p < q < best.len() ==> #[trigger] ranks_before(
            keys,
            ids,
            best[p] as int,
            best[q] as int,
        )
    &&& forall|p: int, j: usize|
        0 <= p < best.len() && j < seen && !best.contains(j) ==> #[trigger] ranks_before(
            keys,
            ids,
            best[p] as int,
            j as int,
        )
    &&& best.len() < k ==> forall|j: usize| j < seen ==> #[trigger] best.contains(j)
}

/// What `best` becomes when entry `seen` is placed at `pos` and the
/// selection is cut back to `k` positions.
pub open spec fn placed(best: Seq<usize>, pos: int, seen: usize, k: int) -> Seq<usize> {
    if pos < k {
        let longer = best.insert(pos, seen);
        if longer.len() > k {
            longer.drop_last()
        } else {
            longer
        }
    } else {
        best
    }
}

/// The ranking of entries with distinct identifiers is a strict total order.
pub proof fn lemma_ranks_before_is_strict_total_order(
    keys: Seq<Distance>,
    ids: Seq<Seq<char>>,
    a: int,
    b: int,
    c: int,
)
    requires
        ids.no_duplicates(),
        0 <= a < ids.len(),
        0 <= b < ids.len(),
    ensures
        !ranks_before(keys, ids, a, a),
        ranks_before(keys, ids, a, b) && ranks_before(keys, ids, b, c) ==> ranks_before(
            keys,
            ids,
            a,
            c,
        ),
        ranks_before(keys, ids, a, b) || a == b || ranks_before(keys, ids, b, a),
        !(ranks_before(keys, ids, a, b) && ranks_before(keys, ids, b, a)),
{
    lemma_precedes_is_strict_total_order(keys[a], keys[b], keys[c]);
    lemma_text_order(ids[a], ids[b], ids[c]);
}

/// Placing the next entry where the ranking puts it keeps the selection.
pub proof fn lemma_placed_selects(
    keys: Seq<Distance>,
    ids: Seq<Seq<char>>,
    seen: usize,
    k: int,
    best: Seq<usize>,
    pos: int,
)
    requires
        ids.no_duplicates(),
        keys.len() == ids.len(),
        seen < ids.len(),
        0 <= k,
        selects(keys, ids, seen as int, k, best),
        0 <= pos <= best.len(),
        forall|q: int|
            pos <= q < best.len() ==> #[trigger] ranks_before(keys, ids, seen as int, best[q] as int),
        pos > 0 ==> ranks_before(keys, ids, best[pos - 1] as int, seen as int),
    ensures
        selects(keys, ids, seen + 1, k, placed(best, pos, seen, k)),
{
    let next = placed(best, pos, seen, k);
    let n = best.len() as int;
    assert forall|a: int, b: int, c: int|
        0 <= a < ids.len() && 0 <= b < ids.len() && #[trigger] ranks_before(keys, ids, a, b)
            && #[trigger] ranks_before(keys, ids, b, c) implies ranks_before(keys, ids, a, c) by {
        lemma_ranks_before_is_strict_total_order(keys, ids, a, b, c);
    }
    // Every selected position comes before the new entry up to `pos`.
    assert forall|p: int| 0 <= p < pos implies #[trigger] ranks_before(
        keys,
        ids,
        best[p] as int,
        seen as int,
    ) by {
        if p < pos - 1 {
            assert(ranks_before(keys, ids, best[p] as int, best[pos - 1] as int));
        }
    }
    assert(!best.contains(seen)) by {
        if best.contains(seen) {
            let p = choose|p: int| 0 <= p < best.len() && best[p] == seen;
            assert(best[p] < seen);
        }
    }
    if pos < k {
        let longer = best.insert(pos, seen);
        best.insert_ensures(pos, seen);
        assert forall|p: int, q: int| 0 <= p < q < longer.len() implies #[trigger] ranks_before(
            keys,
            ids,
            longer[p] as int,
            longer[q] as int,
        ) by {
            if q < pos {
                assert(ranks_before(keys, ids, best[p] as int, best[q] as int));
            } else if q == pos {
                assert(ranks_before(keys, ids, best[p] as int, seen as int));
            } else if p < pos {
                assert(longer[q] == best[q - 1]);
                if q - 1 == pos {
                    assert(ranks_before(keys, ids, best[p] as int, seen as int));
                    assert(ranks_before(keys, ids, seen as int, best[q - 1] as int));
                } else {
                    assert(ranks_before(keys, ids, best[p] as int, best[q - 1] as int));
                }
            } else if p == pos {
                assert(longer[q] == best[q - 1]);
                assert(ranks_before(keys, ids, seen as int, best[q - 1] as int));
            } else {
                assert(longer[p] == best[p - 1]);
                assert(longer[q] == best[q - 1]);
                assert(ranks_before(keys, ids, best[p - 1] as int, best[q - 1] as int));
            }
        }
        assert forall|j: usize| best.contains(j) || j == seen implies longer.contains(j) by {
            if j == seen {
                assert(longer[pos] == j);
            } else {
                let p = choose|p: int| 0 <= p < best.len() && best[p] == j;
                if p < pos {
                    assert(longer[p] == j);
                } else {
                    assert(longer[p + 1] == j);
                }
            }
        }
        assert forall|j: usize| longer.contains(j) implies best.contains(j) || j == seen by {
            let p = choose|p: int| 0 <= p < longer.len() && longer[p] == j;
            if p < pos {
                assert(best[p] == j);
            } else if p > pos {
                assert(best[p - 1] == j);
            }
        }
        assert forall|p: int, j: usize|
            0 <= p < longer.len() && j < seen + 1 && !longer.contains(j) implies #[trigger] ranks_before(
            keys,
            ids,
            longer[p] as int,
            j as int,
        ) by {
            assert(!best.contains(j) && j != seen);
            if p < pos {
                assert(ranks_before(keys, ids, best[p] as int, j as int));
            } else if p == pos {
                if pos < n {
                    assert(ranks_before(keys, ids, seen as int, best[pos] as int));
                    assert(ranks_before(keys, ids, best[pos] as int, j as int));
                } else {
                    // The selection was not full, so it held every earlier entry.
                    assert(n < k);
                    assert(best.contains(j));
                }
            } else {
                assert(longer[p] == best[p - 1]);
                assert(ranks_before(keys, ids, best[p - 1] as int, j as int));
            }
        }
        if longer.len() > k {
            let cut = longer.drop_last();
            let last = longer[longer.len() - 1];
            assert(n == k);
            assert(last == best[n - 1]);
            assert forall|j: usize| longer.contains(j) && j != last implies cut.contains(j) by {
                let p = choose|p: int| 0 <= p < longer.len() && longer[p] == j;
                if p == longer.len() - 1 {
                } else {
                    assert(cut[p] == j);
                }
            }
            assert forall|j: usize| cut.contains(j) implies longer.contains(j) by {
                let p = choose|p: int| 0 <= p < cut.len() && cut[p] == j;
                assert(longer[p] == j);
            }
            assert forall|p: int, j: usize|
                0 <= p < cut.len() && j < seen + 1 && !cut.contains(j) implies #[trigger] ranks_before(
                keys,
                ids,
                cut[p] as int,
                j as int,
            ) by {
                assert(cut[p] == longer[p]);
                if j == last {
                    assert(ranks_before(keys, ids, longer[p] as int, longer[longer.len() - 1] as int));
                } else {
                    assert(!longer.contains(j));
                    assert(ranks_before(keys, ids, longer[p] as int, j as int));
                }
            }
            assert forall|p: int, q: int| 0 <= p < q < cut.len() implies #[trigger] ranks_before(
                keys,
                ids,
                cut[p] as int,
                cut[q] as int,
            ) by {
                assert(ranks_before(keys, ids, longer[p] as int, longer[q] as int));
            }
            assert(selects(keys, ids, seen + 1, k, cut));
        } else {
            assert(selects(keys, ids, seen + 1, k, longer));
        }
    } else {
        assert(pos == k && n == k);
        assert forall|p: int, j: usize|
            0 <= p < best.len() && j < seen + 1 && !best.contains(j) implies #[trigger] ranks_before(
            keys,
            ids,
            best[p] as int,
            j as int,
        ) by {
            if j == seen {
                assert(ranks_before(keys, ids, best[p] as int, seen as int));
            }
        }
        assert(selects(keys, ids, seen + 1, k, best));
    }
}

/// The identifiers at selected positions, once every entry has been seen,
/// are the answer to the query.
pub proof fn lemma_selection_is_nearest(
    keys: Seq<Distance>,
    ids: Seq<Seq<char>>,
    k: nat,
    best: Seq<usize>,
    found: Seq<Seq<char>>,
)
    requires
        ids.no_duplicates(),
        keys.len() == ids.len(),
        ids.len() <= usize::MAX,
        selects(keys, ids, ids.len() as int, k as int, best),
        found.len() == best.len(),
        forall|p: int| 0 <= p < best.len() ==> #[trigger] found[p] == ids[best[p] as int],
    ensures
        is_nearest(keyed(ids, keys), k, found),
{
    let dist = keyed(ids, keys);
    assert(dist.dom() =~= ids.to_set());
    ids.unique_seq_to_set();
    vstd::seq_lib::seq_to_set_is_finite(ids);
    assert forall|i: int| 0 <= i < ids.len() implies ids.index_of(#[trigger] ids[i]) == i by {
        let at = ids.index_of(ids[i]);
        assert(0 <= at < ids.len() && ids[at] == ids[i]);
    }
    assert forall|p: int| 0 <= p < found.len() implies dist.dom().contains(
        #[trigger] found[p],
    ) by {
        assert(ids[best[p] as int] == found[p]);
    }
    assert forall|p: int, q: int| 0 <= p < q < found.len() implies #[trigger] nearer(
        dist,
        found[p],
        found[q],
    ) by {
        assert(ranks_before(keys, ids, best[p] as int, best[q] as int));
        assert(ids.index_of(ids[best[p] as int]) == best[p]);
        assert(ids.index_of(ids[best[q] as int]) == best[q]);
    }
    assert forall|p: int, id: Seq<char>|
        0 <= p < found.len() && dist.dom().contains(id) && !found.contains(id) implies #[trigger] nearer(
        dist,
        found[p],
        id,
    ) by {
        let j = ids.index_of(id);
        assert(0 <= j < ids.len() && ids[j] == id);
        let at = j as usize;
        if best.contains(at) {
            let q = choose|q: int| 0 <= q < best.len() && best[q] == at;
            assert(found[q] == id);
        }
        assert(ranks_before(keys, ids, best[p] as int, at as int));
        assert(ids.index_of(ids[best[p] as int]) == best[p]);
        assert(ids.index_of(ids[j]) == j);
    }
}

} // verus!
