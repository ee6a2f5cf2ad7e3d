//! The vector store and its nearest-neighbour query.

use crate::error::NnError;
use crate::json::{entry_views, json_document, parse_vectors, text_vectors};
use crate::metrics::{metric_factory, metric_named, Metric};
use crate::ranking::{
    is_nearest, keyed, lemma_nearest_holds_all, lemma_nearest_is_unique, lemma_placed_selects,
    lemma_ranks_before_is_strict_total_order, lemma_selection_is_nearest, placed, ranks_before,
    selects,
};
use crate::text::{same_text, text_before};
use crate::types::{lemma_precedes_is_strict_total_order, Distance};
use vstd::prelude::*;

verus! {

/// The texts of a sequence of strings.
pub open spec fn texts(names: Seq<String>) -> Seq<Seq<char>> {
    names.map_values(|name: String| name@)
}

/// The keys of a sequence of distances given by their bit patterns.
pub open spec fn keys_of(distances: Seq<u64>) -> Seq<Distance> {
    distances.map_values(|bits: u64| Distance::of_bits(bits))
}

/// The identifiers that a store holds after `entries` were stored in an empty
/// store one after the other, in stored order: each identifier stands where
/// it was first stored.
pub open spec fn ids_after(entries: Seq<(Seq<char>, Seq<u64>)>) -> Seq<Seq<char>>
    decreases entries.len(),
{
    if entries.len() == 0 {
        Seq::empty()
    } else {
        let earlier = ids_after(entries.drop_last());
        if earlier.contains(entries.last().0) {
            earlier
        } else {
            earlier.push(entries.last().0)
        }
    }
}

/// The map that a store is after `entries` were stored in an empty store
/// one after the other: each identifier has the vector stored last under it.
pub open spec fn map_after(entries: Seq<(Seq<char>, Seq<u64>)>) -> Map<Seq<char>, Seq<u64>>
    decreases entries.len(),
{
    if entries.len() == 0 {
        Map::empty()
    } else {
        map_after(entries.drop_last()).insert(entries.last().0, entries.last().1)
    }
}

/// One stored vector under its identifier.
#[derive(Debug)]
struct Entry {
    id: String,
    vector: Vec<u64>,
}

/// A store of vectors under unique identifiers, bound to one distance
/// metric.
///
/// A vector is a sequence of binary64 numbers, each held as its bit pattern.
/// As a value the store is the map from identifier to vector given by its
/// view; [`NearestNeighbours::ids`] and [`NearestNeighbours::vectors`] give
/// the entries in the order in which the store holds them.
#[derive(Debug)]
pub struct NearestNeighbours {
    metric: Metric,
    entries: Vec<Entry>,
}

impl View for NearestNeighbours {
    type V = Map<Seq<char>, Seq<u64>>;

    open spec fn view(&self) -> Map<Seq<char>, Seq<u64>> {
        Map::new(
            |id: Seq<char>| self.ids().contains(id),
            |id: Seq<char>| self.vectors()[self.ids().index_of(id)],
        )
    }
}

impl NearestNeighbours {
    #[verifier::type_invariant]
    spec fn distinct(self) -> bool {
        self.ids().no_duplicates()
    }

    /// The metric that the store is bound to.
    pub closed spec fn metric_spec(&self) -> Metric {
        self.metric
    }

    /// The stored identifiers, in stored order.
    pub closed spec fn ids(&self) -> Seq<Seq<char>> {
        Seq::new(self.entries.len() as nat, |i: int| self.entries[i].id@)
    }

    /// The vector stored at position `i`.
    pub closed spec fn stored(&self, i: int) -> Vec<u64> {
        self.entries[i].vector
    }

    /// The stored vectors, in stored order: `vectors()[i]` belongs to
    /// `ids()[i]`.
    pub open spec fn vectors(&self) -> Seq<Seq<u64>> {
        Seq::new(self.ids().len(), |i: int| self.stored(i)@)
    }

    /// No identifier is stored twice. This holds of every store that the
    /// library hands out, and [`NearestNeighbours::len`] says so of the store
    /// that it is called on.
    pub open spec fn wf(&self) -> bool {
        self.ids().no_duplicates()
    }

    /// Makes an empty store bound to the metric that `metric` names. A name
    /// that is not a metric's is an error that holds the name: no store is
    /// ever bound to a metric that was not asked for.
    pub fn new(metric: String) -> (made: Result<NearestNeighbours, NnError>)
        ensures
            match metric_named(metric@) {
                Some(m) => made matches Ok(index) && index.metric_spec() == m && index.ids().len()
                    == 0 && index.wf(),
                None => made matches Err(NnError::UnknownMetric(name)) && name@ == metric@,
            },
    {
        match metric_factory(metric.as_str()) {
            Ok(found) => Ok(NearestNeighbours { metric: found, entries: Vec::new() }),
            Err(e) => Err(e),
        }
    }

    /// The metric that the store is bound to.
    pub fn metric(&self) -> (metric: Metric)
        ensures
            metric == self.metric_spec(),
    {
        self.metric
    }

    /// The number of stored vectors.
    pub fn len(&self) -> (n: usize)
        ensures
            n == self.ids().len(),
            self.wf(),
    {
        proof {
            use_type_invariant(self);
        }
        self.entries.len()
    }

    /// The identifier at position `i`, if there is one.
    pub fn id_at(&self, i: usize) -> (id: Option<&String>)
        ensures
            match id {
                Some(s) => i < self.ids().len() && s@ == self.ids()[i as int],
                None => i >= self.ids().len(),
            },
    {
        if i < self.entries.len() {
            Some(&self.entries[i].id)
        } else {
            None
        }
    }

    /// The vector at position `i`, if there is one.
    pub fn vector_at(&self, i: usize) -> (vector: Option<&Vec<u64>>)
        ensures
            match vector {
                Some(v) => i < self.ids().len() && *v == self.stored(i as int),
                None => i >= self.ids().len(),
            },
    {
        if i < self.entries.len() {
            Some(&self.entries[i].vector)
        } else {
            None
        }
    }

    /// The position at which `id` is stored, if it is.
    fn position(&self, id: &str) -> (at: Option<usize>)
        ensures
            match at {
                Some(i) => i < self.ids().len() && i == self.ids().index_of(id@)
                    && self.ids()[i as int] == id@,
                None => !self.ids().contains(id@),
            },
    {
        proof {
            use_type_invariant(self);
        }
        let mut i: usize = 0;
        while i < self.entries.len()
            invariant
                i <= self.entries.len(),
                self.ids().no_duplicates(),
                forall|j: int| 0 <= j < i ==> self.ids()[j] != id@,
            decreases self.entries.len() - i,
        {
            if same_text(self.entries[i].id.as_str(), id) {
                proof {
                    let at = self.ids().index_of(id@);
                    assert(self.ids()[i as int] == id@);
                    assert(self.ids().contains(id@));
                    assert(0 <= at < self.ids().len() && self.ids()[at] == id@);
                }
                return Some(i);
            }
            i += 1;
        }
        None
    }

    /// The vector stored under `id`, if there is one.
    pub fn get(&self, id: &str) -> (vector: Option<&Vec<u64>>)
        ensures
            match vector {
                Some(v) => self@.dom().contains(id@) && v@ == self@[id@],
                None => !self@.dom().contains(id@),
            },
    {
        match self.position(id) {
            Some(i) => Some(&self.entries[i].vector),
            None => None,
        }
    }

    /// Stores `vector` under `id`. If the store already holds a vector under
    /// `id`, the new one takes its place. Vectors of any length are taken.
    pub fn add_vector(&mut self, id: String, vector: Vec<u64>) -> (done: Result<(), NnError>)
        ensures
            done is Ok,
            final(self).wf(),
            final(self).metric_spec() == old(self).metric_spec(),
            final(self)@ == old(self)@.insert(id@, vector@),
            old(self).ids().contains(id@) ==> final(self).ids() == old(self).ids(),
            !old(self).ids().contains(id@) ==> final(self).ids() == old(self).ids().push(id@),
            final(self).stored(final(self).ids().index_of(id@)) == vector,
            forall|i: int|
                0 <= i < old(self).ids().len() && old(self).ids()[i] != id@ ==> final(self).stored(
                    i,
                ) == #[trigger] old(self).stored(i),
    {
        proof {
            use_type_invariant(&*self);
        }
        let ghost before = *self;
        let found: Option<usize> = self.position(id.as_str());
        // The entries are taken out, changed and put back, so that every
        // store that exists on the way holds no identifier twice.
        let mut taken = NearestNeighbours { metric: self.metric, entries: Vec::new() };
        core::mem::swap(self, &mut taken);
        let NearestNeighbours { metric, entries } = taken;
        let mut entries: Vec<Entry> = entries;
        match found {
            Some(i) => {
                entries.set(i, Entry { id, vector });
            },
            None => {
                entries.push(Entry { id, vector });
            },
        }
        let ghost after = NearestNeighbours { metric, entries };
        proof {
            match found {
                Some(i) => {
                    assert(after.ids() =~= before.ids());
                    assert(after.ids().index_of(id@) == i);
                    assert(after@ =~= before@.insert(id@, vector@)) by {
                        assert forall|other: Seq<char>| after.ids().contains(other) implies after@[other]
                            == before@.insert(id@, vector@)[other] by {
                            let at = after.ids().index_of(other);
                            assert(0 <= at < after.ids().len() && after.ids()[at] == other);
                        }
                    }
                },
                None => {
                    assert(after.ids() =~= before.ids().push(id@));
                    let last = before.ids().len() as int;
                    assert(after.ids()[last] == id@);
                    assert(after.ids().contains(id@));
                    assert(after.ids().index_of(id@) == last) by {
                        let at = after.ids().index_of(id@);
                        assert(0 <= at < after.ids().len() && after.ids()[at] == id@);
                    }
                    assert(after@ =~= before@.insert(id@, vector@)) by {
                        assert forall|other: Seq<char>| after.ids().contains(other) implies (other
                            == id@ || before.ids().contains(other)) by {
                            let at = after.ids().index_of(other);
                            assert(0 <= at < after.ids().len() && after.ids()[at] == other);
                            if at < last {
                                assert(before.ids()[at] == other);
                            }
                        }
                        assert forall|other: Seq<char>| before.ids().contains(other) implies after.ids().contains(
                            other,
                        ) && after@[other] == before@[other] by {
                            let at = before.ids().index_of(other);
                            assert(0 <= at < before.ids().len() && before.ids()[at] == other);
                            assert(after.ids()[at] == other);
                            let now = after.ids().index_of(other);
                            assert(0 <= now < after.ids().len() && after.ids()[now] == other);
                            assert(now == at);
                        }
                    }
                },
            }
        }
        *self = NearestNeighbours { metric, entries };
        Ok(())
    }

    /// Makes a store bound to the metric that `metric` names and stores
    /// `entries` in it one after the other, each a vector under its
    /// identifier.
    pub fn from_entries(metric: String, entries: Vec<(String, Vec<u64>)>) -> (made: Result<
        NearestNeighbours,
        NnError,
    >)
        ensures
            match made {
                Ok(index) => metric_named(metric@) == Some(index.metric_spec()) && index.wf()
                    && index@ == map_after(entry_views(entries@)) && index.ids() == ids_after(
                    entry_views(entries@),
                ),
                Err(NnError::UnknownMetric(name)) => metric_named(metric@) is None && name@
                    == metric@,
                Err(_) => false,
            },
    {
        let mut index: NearestNeighbours = match NearestNeighbours::new(metric) {
            Ok(empty) => empty,
            Err(e) => {
                return Err(e);
            },
        };
        let ghost all = entry_views(entries@);
        assert(index@ =~= map_after(all.take(0)));
        assert(index.ids() =~= ids_after(all.take(0)));
        for entry in it: entries
            invariant
                all == entry_views(it.seq()),
                index.wf(),
                metric_named(metric@) == Some(index.metric_spec()),
                index@ == map_after(all.take(it.index() as int)),
                index.ids() == ids_after(all.take(it.index() as int)),
        {
            let ghost done = it.index() as int;
            assert(all.take(done + 1).drop_last() =~= all.take(done));
            assert(all.take(done + 1).last() == (entry.0@, entry.1@));
            let _ = index.add_vector(entry.0, entry.1);
        }
        assert(all.take(all.len() as int) =~= all);
        Ok(index)
    }

    /// Makes a store bound to the metric that `metric` names from a JSON
    /// text: an object whose members are arrays of numbers. Each member is
    /// stored as a vector under the member's name, in the order in which the
    /// parser walks the object.
    ///
    /// Of several faults the first of these is the error: a name that is not
    /// a metric's, a text that is no JSON document, a document of another
    /// shape.
    pub fn from_json(metric: String, text: &str) -> (made: Result<NearestNeighbours, NnError>)
        ensures
            match made {
                Ok(index) => metric_named(metric@) == Some(index.metric_spec()) && index.wf()
                    && text_vectors(text@) is Some && index@ == map_after(text_vectors(text@)->0)
                    && index.ids() == ids_after(text_vectors(text@)->0),
                Err(NnError::UnknownMetric(name)) => metric_named(metric@) is None && name@
                    == metric@,
                Err(NnError::InvalidJson(_)) => metric_named(metric@) is Some && json_document(
                    text@,
                ) is None,
                Err(NnError::UnexpectedJson) => metric_named(metric@) is Some && json_document(
                    text@,
                ) is Some && text_vectors(text@) is None,
            },
    {
        match metric_factory(metric.as_str()) {
            Ok(_) => {},
            Err(e) => {
                return Err(e);
            },
        }
        match parse_vectors(text) {
            Ok(entries) => NearestNeighbours::from_entries(metric, entries),
            Err(e) => Err(e),
        }
    }

    /// Every stored vector has `dimension` components.
    pub open spec fn has_dimension_spec(&self, dimension: nat) -> bool {
        forall|i: int|
            0 <= i < self.vectors().len() ==> (#[trigger] self.vectors()[i]).len() == dimension
    }

    /// Whether every stored vector has `dimension` components, so that a
    /// vector of that length can be compared with each of them.
    pub fn has_dimension(&self, dimension: usize) -> (all: bool)
        ensures
            all == self.has_dimension_spec(dimension as nat),
    {
        let mut i: usize = 0;
        while i < self.entries.len()
            invariant
                i <= self.entries.len(),
                forall|j: int| 0 <= j < i ==> (#[trigger] self.vectors()[j]).len() == dimension,
            decreases self.entries.len() - i,
        {
            if self.entries[i].vector.len() != dimension {
                assert(self.vectors()[i as int].len() != dimension);
                return false;
            }
            i += 1;
        }
        true
    }

    /// The distance key of each stored identifier, where `distances[i]` is
    /// the bit pattern of the distance of the vector at position `i`.
    pub open spec fn keyed(&self, distances: Seq<u64>) -> Map<Seq<char>, Distance> {
        keyed(self.ids(), keys_of(distances))
    }

    /// Whether the entry at position `i` is ranked before the one at `j`.
    fn ranked_before(&self, keys: &Vec<Distance>, i: usize, j: usize) -> (before: bool)
        requires
            i < self.ids().len(),
            j < self.ids().len(),
            keys.len() == self.ids().len(),
        ensures
            before == ranks_before(keys@, self.ids(), i as int, j as int),
    {
        if keys[i].is_before(&keys[j]) {
            true
        } else if keys[j].is_before(&keys[i]) {
            proof {
                lemma_precedes_is_strict_total_order(keys[i as int], keys[j as int], keys[i as int]);
            }
            false
        } else {
            proof {
                lemma_precedes_is_strict_total_order(keys[i as int], keys[j as int], keys[i as int]);
            }
            text_before(self.entries[i].id.as_str(), self.entries[j].id.as_str())
        }
    }

    /// The identifiers of the `no_neighbours` stored vectors nearest to a
    /// query, nearest first, given the distance of each stored vector to the
    /// query: `distances[i]` is the bit pattern of the distance of the vector
    /// at position `i`. Fewer identifiers come back only if fewer are stored.
    /// Identifiers at the same distance come in ascending order.
    pub fn nearest(&self, distances: &Vec<u64>, no_neighbours: usize) -> (found: Vec<String>)
        requires
            distances.len() == self.ids().len(),
        ensures
            is_nearest(self.keyed(distances@), no_neighbours as nat, texts(found@)),
            found.len() == if no_neighbours <= self.ids().len() {
                no_neighbours as nat
            } else {
                self.ids().len()
            },
            no_neighbours >= self.ids().len() ==> texts(found@).to_set() == self@.dom(),
    {
        proof {
            use_type_invariant(self);
        }
        let n: usize = self.entries.len();
        let mut keys: Vec<Distance> = Vec::new();
        let mut i: usize = 0;
        while i < n
            invariant
                i <= n,
                n == distances.len(),
                keys.len() == i,
                forall|j: int| 0 <= j < i ==> #[trigger] keys[j] == Distance::of_bits(distances[j]),
            decreases n - i,
        {
            keys.push(Distance::new(distances[i]));
            i += 1;
        }
        assert(keys@ =~= keys_of(distances@));
        let mut best: Vec<usize> = Vec::new();
        let mut seen: usize = 0;
        while seen < n
            invariant
                seen <= n,
                n == self.ids().len(),
                keys.len() == n,
                self.ids().no_duplicates(),
                selects(keys@, self.ids(), seen as int, no_neighbours as int, best@),
            decreases n - seen,
        {
            let mut pos: usize = best.len();
            while pos > 0 && self.ranked_before(&keys, seen, best[pos - 1])
                invariant
                    pos <= best.len(),
                    seen < n,
                    n == self.ids().len(),
                    keys.len() == n,
                    forall|p: int| 0 <= p < best.len() ==> (#[trigger] best[p]) < seen,
                    forall|q: int|
                        pos <= q < best.len() ==> #[trigger] ranks_before(
                            keys@,
                            self.ids(),
                            seen as int,
                            best[q] as int,
                        ),
                decreases pos,
            {
                pos -= 1;
            }
            proof {
                if pos > 0 {
                    lemma_ranks_before_is_strict_total_order(
                        keys@,
                        self.ids(),
                        seen as int,
                        best[pos - 1] as int,
                        seen as int,
                    );
                }
                lemma_placed_selects(
                    keys@,
                    self.ids(),
                    seen,
                    no_neighbours as int,
                    best@,
                    pos as int,
                );
            }
            let ghost earlier = best@;
            if pos < no_neighbours {
                best.insert(pos, seen);
                if best.len() > no_neighbours {
                    best.pop();
                }
            }
            assert(best@ == placed(earlier, pos as int, seen, no_neighbours as int));
            seen += 1;
        }
        let mut found: Vec<String> = Vec::new();
        let mut p: usize = 0;
        while p < best.len()
            invariant
                p <= best.len(),
                found.len() == p,
                n == self.ids().len(),
                forall|q: int| 0 <= q < best.len() ==> (#[trigger] best[q]) < n,
                forall|q: int| 0 <= q < p ==> (#[trigger] found[q])@ == self.ids()[best[q] as int],
            decreases best.len() - p,
        {
            found.push(self.entries[best[p]].id.clone());
            p += 1;
        }
        proof {
            lemma_selection_is_nearest(
                keys@,
                self.ids(),
                no_neighbours as nat,
                best@,
                texts(found@),
            );
            lemma_view_holds_entries(*self);
            if no_neighbours >= n {
                lemma_nearest_holds_all(
                    self.keyed(distances@),
                    no_neighbours as nat,
                    texts(found@),
                );
            }
        }
        found
    }

    /// `distances` holds, for each stored vector in stored order, a distance
    /// that `distance` can return for that vector and `query_vector` under
    /// the store's metric.
    pub open spec fn measured<F: Fn(Metric, &Vec<u64>, &Vec<u64>) -> u64>(
        &self,
        distance: F,
        query_vector: &Vec<u64>,
        distances: Seq<u64>,
    ) -> bool {
        &&& distances.len() == self.ids().len()
        &&& forall|i: int|
            0 <= i < distances.len() ==> call_ensures(
                distance,
                (self.metric_spec(), &self.stored(i), query_vector),
                #[trigger] distances[i],
            )
    }

    /// The identifiers of the `no_neighbours` stored vectors nearest to
    /// `query_vector`, nearest first.
    ///
    /// `distance` computes the distance between two vectors of equal length
    /// under a metric, from and to bit patterns. It is called once for each
    /// stored vector, with the store's metric, the stored vector and the
    /// query vector. The answer is that of [`NearestNeighbours::nearest`] for
    /// the distances that came back.
    ///
    /// Every stored vector must have the length of `query_vector`: vectors of
    /// different lengths are never compared.
    pub fn query_by_vector<F: Fn(Metric, &Vec<u64>, &Vec<u64>) -> u64>(
        &self,
        query_vector: &Vec<u64>,
        no_neighbours: usize,
        distance: F,
    ) -> (found: Result<Vec<String>, NnError>)
        requires
            self.has_dimension_spec(query_vector@.len()),
            forall|a: &Vec<u64>, b: &Vec<u64>|
                a@.len() == b@.len() ==> #[trigger] call_requires(
                    distance,
                    (self.metric_spec(), a, b),
                ),
        ensures
            match found {
                Ok(ids) => {
                    &&& exists|distances: Seq<u64>| #[trigger]
                        self.measured(distance, query_vector, distances) && is_nearest(
                            self.keyed(distances),
                            no_neighbours as nat,
                            texts(ids@),
                        )
                    &&& ids.len() == if no_neighbours <= self.ids().len() {
                        no_neighbours as nat
                    } else {
                        self.ids().len()
                    }
                    &&& no_neighbours >= self.ids().len() ==> texts(ids@).to_set() == self@.dom()
                },
                Err(_) => false,
            },
    {
        let mut distances: Vec<u64> = Vec::new();
        let mut i: usize = 0;
        while i < self.entries.len()
            invariant
                i <= self.entries.len(),
                distances.len() == i,
                self.has_dimension_spec(query_vector@.len()),
                forall|a: &Vec<u64>, b: &Vec<u64>|
                    a@.len() == b@.len() ==> #[trigger] call_requires(
                        distance,
                        (self.metric_spec(), a, b),
                    ),
                forall|j: int|
                    0 <= j < i ==> call_ensures(
                        distance,
                        (self.metric_spec(), &self.stored(j), query_vector),
                        #[trigger] distances[j],
                    ),
            decreases self.entries.len() - i,
        {
            assert(self.vectors()[i as int].len() == query_vector@.len());
            let d: u64 = distance(self.metric, &self.entries[i].vector, query_vector);
            distances.push(d);
            i += 1;
        }
        let ids: Vec<String> = self.nearest(&distances, no_neighbours);
        assert(self.measured(distance, query_vector, distances@));
        Ok(ids)
    }
}

/// The view of a well-formed store is the map of its entries: it holds the
/// stored identifiers, each once, and under each the vector at its position.
pub proof fn lemma_view_holds_entries(index: NearestNeighbours)
    requires
        index.wf(),
    ensures
        index@.dom().finite(),
        index@.dom() == index.ids().to_set(),
        index@.dom().len() == index.ids().len(),
        forall|distances: Seq<u64>| (#[trigger] index.keyed(distances)).dom() == index@.dom(),
        forall|i: int|
            0 <= i < index.ids().len() ==> index.ids().index_of(#[trigger] index.ids()[i]) == i,
        forall|i: int|
            0 <= i < index.ids().len() ==> index@[#[trigger] index.ids()[i]] == index.vectors()[i],
{
    let ids = index.ids();
    assert(index@.dom() =~= ids.to_set());
    assert forall|distances: Seq<u64>| (#[trigger] index.keyed(distances)).dom()
        == index@.dom() by {
        assert(index.keyed(distances).dom() =~= index@.dom());
    }
    ids.unique_seq_to_set();
    vstd::seq_lib::seq_to_set_is_finite(ids);
    assert forall|i: int| 0 <= i < ids.len() implies ids.index_of(#[trigger] ids[i]) == i by {
        let at = ids.index_of(ids[i]);
        assert(0 <= at < ids.len() && ids[at] == ids[i]);
    }
}

/// Storing entries with distinct identifiers in an empty store gives the
/// map of those entries, whatever their order.
pub proof fn lemma_map_after_distinct(entries: Seq<(Seq<char>, Seq<u64>)>)
    requires
        forall|i: int, j: int|
            0 <= i < entries.len() && 0 <= j < entries.len() && i != j ==> entries[i].0
                != entries[j].0,
    ensures
        forall|id: Seq<char>| #[trigger]
            map_after(entries).dom().contains(id) <==> exists|i: int|
                0 <= i < entries.len() && (#[trigger] entries[i]).0 == id,
        forall|i: int|
            0 <= i < entries.len() ==> map_after(entries)[(#[trigger] entries[i]).0]
                == entries[i].1,
    decreases entries.len(),
{
    if entries.len() > 0 {
        let earlier = entries.drop_last();
        lemma_map_after_distinct(earlier);
        assert forall|id: Seq<char>| map_after(entries).dom().contains(id) implies exists|i: int|
            0 <= i < entries.len() && (#[trigger] entries[i]).0 == id by {
            if id == entries.last().0 {
                assert(entries[entries.len() - 1].0 == id);
            } else {
                assert(map_after(earlier).dom().contains(id));
                let i = choose|i: int| 0 <= i < earlier.len() && (#[trigger] earlier[i]).0 == id;
                assert(earlier[i] == entries[i]);
            }
        }
        assert forall|i: int| 0 <= i < entries.len() implies map_after(entries).dom().contains(
            (#[trigger] entries[i]).0,
        ) && map_after(entries)[entries[i].0] == entries[i].1 by {
            if i < entries.len() - 1 {
                assert(earlier[i] == entries[i]);
            }
        }
    }
}

/// A store rebuilt from the entries of another is the same map: where
/// `entries` lists every entry of `index` once, in any order, storing them
/// in an empty store gives the map that `index` is.
pub proof fn lemma_rebuilt_store_is_same_map(
    index: NearestNeighbours,
    entries: Seq<(Seq<char>, Seq<u64>)>,
)
    requires
        index.wf(),
        entries.len() == index.ids().len(),
        forall|i: int|
            0 <= i < entries.len() ==> index@.dom().contains((#[trigger] entries[i]).0)
                && index@[entries[i].0] == entries[i].1,
        forall|i: int, j: int|
            0 <= i < entries.len() && 0 <= j < entries.len() && i != j ==> entries[i].0
                != entries[j].0,
    ensures
        map_after(entries) == index@,
{
    lemma_view_holds_entries(index);
    lemma_map_after_distinct(entries);
    let rebuilt = map_after(entries);
    let names = entries.map_values(|entry: (Seq<char>, Seq<u64>)| entry.0);
    assert(names.no_duplicates());
    names.unique_seq_to_set();
    vstd::seq_lib::seq_to_set_is_finite(names);
    assert(names.to_set().subset_of(index@.dom())) by {
        assert forall|id: Seq<char>| names.to_set().contains(id) implies index@.dom().contains(
            id,
        ) by {
            let i = choose|i: int| 0 <= i < names.len() && names[i] == id;
            assert(entries[i].0 == id);
        }
    }
    vstd::set_lib::lemma_subset_equality(names.to_set(), index@.dom());
    assert(rebuilt.dom() =~= index@.dom()) by {
        assert forall|id: Seq<char>| index@.dom().contains(id) implies rebuilt.dom().contains(
            id,
        ) by {
            assert(names.to_set().contains(id));
            let i = choose|i: int| 0 <= i < names.len() && names[i] == id;
            assert(entries[i].0 == id);
        }
        assert forall|id: Seq<char>| rebuilt.dom().contains(id) implies index@.dom().contains(
            id,
        ) by {
            let i = choose|i: int| 0 <= i < entries.len() && (#[trigger] entries[i]).0 == id;
        }
    }
    assert(rebuilt =~= index@) by {
        assert forall|id: Seq<char>| rebuilt.dom().contains(id) implies rebuilt[id]
            == index@[id] by {
            let i = choose|i: int| 0 <= i < entries.len() && (#[trigger] entries[i]).0 == id;
        }
    }
}

/// Two stores that hold the same vectors under the same identifiers give
/// the same answer to the same query, in whatever order each holds them:
/// where the distance of a stored vector is `measure` of that vector, the
/// answer depends on the map that the store is, and on nothing else.
pub proof fn lemma_answer_depends_on_entries_only(
    one: NearestNeighbours,
    two: NearestNeighbours,
    measure: spec_fn(Seq<u64>) -> u64,
    first: Seq<u64>,
    second: Seq<u64>,
    k: nat,
    found_one: Seq<Seq<char>>,
    found_two: Seq<Seq<char>>,
)
    requires
        one.wf(),
        two.wf(),
        one@ == two@,
        first.len() == one.ids().len(),
        forall|i: int| 0 <= i < first.len() ==> #[trigger] first[i] == measure(one.vectors()[i]),
        second.len() == two.ids().len(),
        forall|i: int| 0 <= i < second.len() ==> #[trigger] second[i] == measure(two.vectors()[i]),
        is_nearest(one.keyed(first), k, found_one),
        is_nearest(two.keyed(second), k, found_two),
    ensures
        found_one == found_two,
{
    lemma_view_holds_entries(one);
    lemma_view_holds_entries(two);
    assert(one.keyed(first) =~= two.keyed(second)) by {
        assert(one.keyed(first).dom() =~= one@.dom());
        assert(two.keyed(second).dom() =~= two@.dom());
        assert forall|id: Seq<char>| one@.dom().contains(id) implies one.keyed(first)[id]
            == two.keyed(second)[id] by {
            let i = one.ids().index_of(id);
            let j = two.ids().index_of(id);
            assert(0 <= i < one.ids().len() && one.ids()[i] == id);
            assert(two@.dom().contains(id));
            assert(0 <= j < two.ids().len() && two.ids()[j] == id);
            assert(one@[one.ids()[i]] == one.vectors()[i]);
            assert(two@[two.ids()[j]] == two.vectors()[j]);
            assert(first[i] == measure(one.vectors()[i]));
            assert(second[j] == measure(two.vectors()[j]));
        }
    }
    lemma_nearest_is_unique(one.keyed(first), k, found_one, found_two);
}

} // verus!
