//! A map keyed by text that keeps its rows in the order of their keys.

use crate::text;
use vstd::prelude::*;

verus! {

/// Keys grow strictly from row to row.
pub open spec fn ascending<T>(rows: Seq<(Seq<char>, T)>) -> bool {
    forall|i: int, j: int|
        0 <= i < j < rows.len() ==> text::lex_lt((#[trigger] rows[i]).0, (#[trigger] rows[j]).0)
}

/// `rows` are the pairs of `m`, each once, in the order of their keys.
pub open spec fn is_listing<T>(rows: Seq<(Seq<char>, T)>, m: Map<Seq<char>, T>) -> bool {
    &&& ascending(rows)
    &&& forall|i: int|
        0 <= i < rows.len() ==> m.contains_key((#[trigger] rows[i]).0) && m[rows[i].0] == rows[i].1
    &&& forall|k: Seq<char>| #[trigger]
        m.contains_key(k) ==> exists|i: int| 0 <= i < rows.len() && (#[trigger] rows[i]).0 == k
}

/// The pairs of `m` in the order of their keys.
pub open spec fn listing<T>(m: Map<Seq<char>, T>) -> Seq<(Seq<char>, T)> {
    choose|rows: Seq<(Seq<char>, T)>| is_listing(rows, m)
}

/// The pairs of `m` can be listed: it is not infinite.
pub open spec fn listable<T>(m: Map<Seq<char>, T>) -> bool {
    is_listing(listing(m), m)
}

/// The map that holds the given rows.
pub open spec fn rows_map<T>(rows: Seq<(Seq<char>, T)>) -> Map<Seq<char>, T> {
    Map::new(
        |k: Seq<char>| exists|i: int| 0 <= i < rows.len() && (#[trigger] rows[i]).0 == k,
        |k: Seq<char>| rows[choose|i: int| 0 <= i < rows.len() && (#[trigger] rows[i]).0 == k].1,
    )
}

/// A map has one listing only.
pub proof fn lemma_listing_unique<T>(
    a: Seq<(Seq<char>, T)>,
    b: Seq<(Seq<char>, T)>,
    m: Map<Seq<char>, T>,
)
    requires
        is_listing(a, m),
        is_listing(b, m),
    ensures
        a == b,
    decreases a.len(),
{
    if a.len() == 0 {
        if b.len() > 0 {
            assert(m.contains_key(b[0].0));
        }
        assert(a =~= b);
    } else {
        assert(m.contains_key(a[0].0));
        let j = choose|j: int| 0 <= j < b.len() && (#[trigger] b[j]).0 == a[0].0;
        assert(m.contains_key(b[0].0));
        let i = choose|i: int| 0 <= i < a.len() && (#[trigger] a[i]).0 == b[0].0;
        if i > 0 && j > 0 {
            text::lemma_lex_asymmetric(a[0].0, a[i].0);
        } else if i > 0 {
            text::lemma_lex_irreflexive(a[0].0);
        } else if j > 0 {
            text::lemma_lex_irreflexive(b[0].0);
        }
        assert(a[0] == b[0]);
        let rest = m.remove(a[0].0);
        let a1 = a.drop_first();
        let b1 = b.drop_first();
        lemma_listing_rest(a, m);
        lemma_listing_rest(b, m);
        lemma_listing_unique(a1, b1, rest);
        assert(a =~= seq![a[0]] + a1);
        assert(b =~= seq![b[0]] + b1);
    }
}

proof fn lemma_listing_rest<T>(a: Seq<(Seq<char>, T)>, m: Map<Seq<char>, T>)
    requires
        is_listing(a, m),
        a.len() > 0,
    ensures
        is_listing(a.drop_first(), m.remove(a[0].0)),
{
    let a1 = a.drop_first();
    let rest = m.remove(a[0].0);
    assert forall|i: int, j: int| 0 <= i < j < a1.len() implies text::lex_lt(
        (#[trigger] a1[i]).0,
        (#[trigger] a1[j]).0,
    ) by {
        assert(a1[i] == a[i + 1]);
        assert(a1[j] == a[j + 1]);
    }
    assert forall|i: int| 0 <= i < a1.len() implies rest.contains_key((#[trigger] a1[i]).0)
        && rest[a1[i].0] == a1[i].1 by {
        assert(a1[i] == a[i + 1]);
        text::lemma_lex_asymmetric(a[0].0, a[i + 1].0);
    }
    assert forall|k: Seq<char>| #[trigger] rest.contains_key(k) implies exists|i: int|
        0 <= i < a1.len() && (#[trigger] a1[i]).0 == k by {
        assert(m.contains_key(k));
        let i = choose|i: int| 0 <= i < a.len() && (#[trigger] a[i]).0 == k;
        assert(a1[i - 1] == a[i]);
    }
}

/// Rows that list `m` are its listing.
pub proof fn lemma_listing_is<T>(rows: Seq<(Seq<char>, T)>, m: Map<Seq<char>, T>)
    requires
        is_listing(rows, m),
    ensures
        listing(m) == rows,
{
    lemma_listing_unique(listing(m), rows, m);
}

/// Ascending rows list the map that they hold.
pub proof fn lemma_rows_list<T>(rows: Seq<(Seq<char>, T)>)
    requires
        ascending(rows),
    ensures
        is_listing(rows, rows_map(rows)),
        listing(rows_map(rows)) == rows,
{
    let m = rows_map(rows);
    assert forall|i: int| 0 <= i < rows.len() implies m.contains_key((#[trigger] rows[i]).0)
        && m[rows[i].0] == rows[i].1 by {
        let k = choose|k: int| 0 <= k < rows.len() && (#[trigger] rows[k]).0 == rows[i].0;
        text::lemma_lex_irreflexive(rows[i].0);
        assert(k == i);
    }
    lemma_listing_is(rows, m);
}

/// Rows as the views of their keys and values.
spec fn pairs_of<V: View>(rows: Seq<(String, V)>) -> Seq<(Seq<char>, V::V)> {
    rows.map_values(|row: (String, V)| (row.0@, row.1@))
}

/// A map from text to values, with its rows kept in the order of the keys.
pub struct TextMap<V: View> {
    rows: Vec<(String, V)>,
}

impl<V: View> View for TextMap<V> {
    type V = Map<Seq<char>, V::V>;

    closed spec fn view(&self) -> Map<Seq<char>, V::V> {
        rows_map(self.pairs())
    }
}

impl<V: View> TextMap<V> {
    /// The rows, each as the views of its key and value.
    spec fn pairs(&self) -> Seq<(Seq<char>, V::V)> {
        pairs_of(self.rows@)
    }

    #[verifier::type_invariant]
    spec fn in_order(self) -> bool {
        ascending(self.pairs())
    }

    /// An empty map.
    pub fn new() -> (map: Self)
        ensures
            map@ == Map::<Seq<char>, V::V>::empty(),
    {
        let map = TextMap { rows: Vec::new() };
        assert(map@ =~= Map::<Seq<char>, V::V>::empty());
        map
    }

    /// The first row whose key does not come before `key`.
    fn place(&self, key: &str) -> (at: usize)
        ensures
            at <= self.rows.len(),
            forall|i: int| 0 <= i < at ==> text::lex_lt((#[trigger] self.pairs()[i]).0, key@),
            forall|i: int|
                at <= i < self.rows.len() ==> !text::lex_lt((#[trigger] self.pairs()[i]).0, key@),
    {
        proof {
            use_type_invariant(self);
        }
        let mut low: usize = 0;
        let mut high: usize = self.rows.len();
        while low < high
            invariant
                low <= high <= self.rows.len(),
                ascending(self.pairs()),
                forall|i: int| 0 <= i < low ==> text::lex_lt((#[trigger] self.pairs()[i]).0, key@),
                forall|i: int|
                    high <= i < self.rows.len() ==> !text::lex_lt((#[trigger] self.pairs()[i]).0, key@),
            decreases high - low,
        {
            let mid = low + (high - low) / 2;
            assert(self.pairs()[mid as int].0 == self.rows@[mid as int].0@);
            if text::text_lt(self.rows[mid].0.as_str(), key) {
                assert forall|i: int| 0 <= i <= mid implies text::lex_lt(
                    (#[trigger] self.pairs()[i]).0,
                    key@,
                ) by {
                    if i < mid {
                        text::lemma_lex_transitive(self.pairs()[i].0, self.pairs()[mid as int].0, key@);
                    }
                }
                low = mid + 1;
            } else {
                assert forall|i: int| mid <= i < self.rows.len() implies !text::lex_lt(
                    (#[trigger] self.pairs()[i]).0,
                    key@,
                ) by {
                    if i > mid && text::lex_lt(self.pairs()[i].0, key@) {
                        text::lemma_lex_transitive(self.pairs()[mid as int].0, self.pairs()[i].0, key@);
                    }
                }
                high = mid;
            }
        }
        low
    }

    /// The value under `key`.
    pub fn get(&self, key: &str) -> (value: Option<&V>)
        ensures
            value is Some <==> self@.contains_key(key@),
            value matches Some(v) ==> v@ == self@[key@],
    {
        proof {
            use_type_invariant(self);
            lemma_rows_list(self.pairs());
        }
        let at = self.place(key);
        if at < self.rows.len() && text::same_text(self.rows[at].0.as_str(), key) {
            assert(self.pairs()[at as int].0 == key@);
            Some(&self.rows[at].1)
        } else {
            proof {
                if self@.contains_key(key@) {
                    let i = choose|i: int|
                        0 <= i < self.pairs().len() && (#[trigger] self.pairs()[i]).0 == key@;
                    text::lemma_lex_irreflexive(key@);
                    assert(i > at);
                    assert(text::lex_lt(self.pairs()[at as int].0, self.pairs()[i].0));
                }
            }
            None
        }
    }

    /// Puts `value` under `key`, in place of what stood there.
    pub fn insert(&mut self, key: String, value: V)
        ensures
            final(self)@ == old(self)@.insert(key@, value@),
    {
        proof {
            use_type_invariant(&*self);
            lemma_rows_list(self.pairs());
        }
        let ghost before = self.pairs();
        let ghost k = key@;
        let ghost v = value@;
        let at = self.place(key.as_str());
        let present = at < self.rows.len() && text::same_text(self.rows[at].0.as_str(), key.as_str());
        let mut rows: Vec<(String, V)> = Vec::new();
        std::mem::swap(&mut rows, &mut self.rows);
        if present {
            rows.set(at, (key, value));
        } else {
            rows.insert(at, (key, value));
        }
        let ghost after = pairs_of(rows@);
        proof {
            if present {
                assert(after =~= before.update(at as int, (k, v)));
                assert forall|i: int, j: int| 0 <= i < j < after.len() implies text::lex_lt(
                    (#[trigger] after[i]).0,
                    (#[trigger] after[j]).0,
                ) by {
                    assert(before[i].0 == after[i].0);
                    assert(before[j].0 == after[j].0);
                }
            } else {
                assert(after =~= before.insert(at as int, (k, v)));
                assert forall|i: int, j: int| 0 <= i < j < after.len() implies text::lex_lt(
                    (#[trigger] after[i]).0,
                    (#[trigger] after[j]).0,
                ) by {
                    let i0 = if i < at { i } else { i - 1 };
                    let j0 = if j < at { j } else { j - 1 };
                    if i != at && j != at {
                        assert(after[i] == before[i0]);
                        assert(after[j] == before[j0]);
                    } else if j == at {
                        assert(after[i] == before[i]);
                    } else {
                        assert(after[j] == before[j0]);
                        text::lemma_lex_total(k, before[j0].0);
                        if j0 > at {
                            text::lemma_lex_total(k, before[at as int].0);
                            text::lemma_lex_transitive(k, before[at as int].0, before[j0].0);
                        }
                    }
                }
            }
            lemma_rows_list(after);
        }
        self.rows = rows;
        proof {
            let old_map = rows_map(before);
            let new_map = rows_map(after);
            assert(self@ == new_map);
            assert forall|x: Seq<char>| new_map.contains_key(x) <==> #[trigger] old_map.insert(
                k,
                v,
            ).contains_key(x) by {
                if new_map.contains_key(x) {
                    let i = choose|i: int| 0 <= i < after.len() && (#[trigger] after[i]).0 == x;
                    if i != at {
                        let i0 = if present || i < at { i } else { i - 1 };
                        assert(after[i] == before[i0]);
                    }
                }
                if old_map.contains_key(x) && x != k {
                    let i = choose|i: int| 0 <= i < before.len() && (#[trigger] before[i]).0 == x;
                    let i1 = if present || i < at { i } else { i + 1 };
                    assert(after[i1] == before[i]);
                }
                assert(after[at as int] == (k, v));
            }
            assert forall|x: Seq<char>| #[trigger] new_map.contains_key(x) implies new_map[x]
                == old_map.insert(k, v)[x] by {
                let i = choose|i: int| 0 <= i < after.len() && (#[trigger] after[i]).0 == x;
                assert(new_map[x] == after[i].1);
                if i != at {
                    let i0 = if present || i < at { i } else { i - 1 };
                    assert(after[i] == before[i0]);
                    assert(text::lex_lt(after[i].0, after[at as int].0) || text::lex_lt(
                        after[at as int].0,
                        after[i].0,
                    ));
                    text::lemma_lex_irreflexive(k);
                }
            }
            assert(new_map =~= old_map.insert(k, v));
        }
    }

    /// The number of rows.
    pub fn len(&self) -> (n: usize)
        ensures
            is_listing(listing(self@), self@),
            n == listing(self@).len(),
    {
        proof {
            use_type_invariant(self);
            lemma_rows_list(self.pairs());
        }
        self.rows.len()
    }

    /// The key in row `i`.
    pub fn key_at(&self, i: usize) -> (key: &String)
        requires
            i < listing(self@).len(),
        ensures
            key@ == listing(self@)[i as int].0,
    {
        proof {
            use_type_invariant(self);
            lemma_rows_list(self.pairs());
        }
        &self.rows[i].0
    }

    /// The value in row `i`.
    pub fn value_at(&self, i: usize) -> (value: &V)
        requires
            i < listing(self@).len(),
        ensures
            value@ == listing(self@)[i as int].1,
    {
        proof {
            use_type_invariant(self);
            lemma_rows_list(self.pairs());
        }
        &self.rows[i].1
    }
}

impl TextMap<u64> {
    /// A map with the same rows.
    pub fn copy(&self) -> (map: Self)
        ensures
            map@ == self@,
    {
        proof {
            use_type_invariant(self);
        }
        let mut rows: Vec<(String, u64)> = Vec::new();
        let mut i: usize = 0;
        while i < self.rows.len()
            invariant
                i <= self.rows.len(),
                rows.len() == i,
                forall|j: int| 0 <= j < i ==> #[trigger] rows@[j] == self.rows@[j],
            decreases self.rows.len() - i,
        {
            rows.push((self.rows[i].0.clone(), self.rows[i].1));
            i += 1;
        }
        assert(rows@ =~= self.rows@);
        TextMap { rows }
    }
}

/// A listing holds a key with a value exactly if the map does, every key
/// once, and each key comes before the ones further on in the order of
/// strings.
pub proof fn law_a_listing_holds_every_pair_once<T>(m: Map<Seq<char>, T>, k: Seq<char>, v: T)
    requires
        listable(m),
    ensures
        listing(m).contains((k, v)) <==> m.contains_key(k) && m[k] == v,
        forall|i: int, j: int|
            0 <= i < j < listing(m).len() ==> text::lex_lt(
                (#[trigger] listing(m)[i]).0,
                (#[trigger] listing(m)[j]).0,
            ),
        forall|i: int, j: int|
            0 <= i < listing(m).len() && 0 <= j < listing(m).len() && (#[trigger] listing(m)[i]).0
                == (#[trigger] listing(m)[j]).0 ==> i == j,
{
    let rows = listing(m);
    if rows.contains((k, v)) {
        let i = choose|i: int| 0 <= i < rows.len() && rows[i] == (k, v);
        assert(m.contains_key(rows[i].0));
    }
    if m.contains_key(k) && m[k] == v {
        let i = choose|i: int| 0 <= i < rows.len() && (#[trigger] rows[i]).0 == k;
        assert(rows[i] == (k, v));
    }
    assert forall|i: int, j: int|
        0 <= i < rows.len() && 0 <= j < rows.len() && (#[trigger] rows[i]).0 == (
        #[trigger] rows[j]).0 implies i == j by {
        text::lemma_lex_irreflexive(rows[i].0);
    }
}

/// A listing has as many rows as the map has keys.
pub proof fn law_a_listing_is_as_long_as_the_map<T>(m: Map<Seq<char>, T>)
    requires
        listable(m),
    ensures
        m.dom().finite(),
        listing(m).len() == m.dom().len(),
{
    let rows = listing(m);
    let keys = rows.map_values(|row: (Seq<char>, T)| row.0);
    assert forall|i: int, j: int| 0 <= i < keys.len() && 0 <= j < keys.len() && i != j implies keys[i]
        != keys[j] by {
        text::lemma_lex_irreflexive(rows[i].0);
        assert(keys[i] == rows[i].0 && keys[j] == rows[j].0);
    }
    assert(keys.no_duplicates());
    keys.unique_seq_to_set();
    assert forall|k: Seq<char>| #[trigger] keys.to_set().contains(k) <==> m.dom().contains(k) by {
        if keys.contains(k) {
            let i = choose|i: int| 0 <= i < keys.len() && keys[i] == k;
            assert(m.contains_key(rows[i].0));
        }
        if m.contains_key(k) {
            let i = choose|i: int| 0 <= i < rows.len() && (#[trigger] rows[i]).0 == k;
            assert(keys[i] == k);
        }
    }
    assert(keys.to_set() =~= m.dom());
}

} // verus!
