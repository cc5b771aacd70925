//! The header table of a request or a response: an ordered list of
//! name/value pairs in which a name occurs at most once and inserting an
//! existing name overwrites its value in place.

use vstd::prelude::*;

use crate::bytes::bytes_eq;

verus! {

/// One header line: a name and a value, both raw bytes.
#[derive(Debug)]
pub struct Header {
    pub name: Vec<u8>,
    pub value: Vec<u8>,
}

impl View for Header {
    type V = (Seq<u8>, Seq<u8>);

    open spec fn view(&self) -> (Seq<u8>, Seq<u8>) {
        (self.name@, self.value@)
    }
}

/// Some entry of `m` carries the name `k`.
pub open spec fn has_name(m: Seq<(Seq<u8>, Seq<u8>)>, k: Seq<u8>) -> bool {
    exists|j: int| 0 <= j < m.len() && #[trigger] m[j].0 == k
}

/// Index of the first entry named `k` (meaningful only when `has_name`).
pub open spec fn name_index(m: Seq<(Seq<u8>, Seq<u8>)>, k: Seq<u8>) -> int
    decreases m.len(),
{
    if m.len() == 0 {
        0
    } else if m[0].0 == k {
        0
    } else {
        1 + name_index(m.drop_first(), k)
    }
}

/// Value stored under the name `k`, if any.
pub open spec fn lookup(m: Seq<(Seq<u8>, Seq<u8>)>, k: Seq<u8>) -> Option<Seq<u8>> {
    if has_name(m, k) {
        Some(m[name_index(m, k)].1)
    } else {
        None
    }
}

/// `m` after a last-wins insertion of `(k, v)`: overwrite in place when the
/// name is present, append otherwise.
pub open spec fn put(m: Seq<(Seq<u8>, Seq<u8>)>, k: Seq<u8>, v: Seq<u8>) -> Seq<
    (Seq<u8>, Seq<u8>),
> {
    if has_name(m, k) {
        m.update(name_index(m, k), (k, v))
    } else {
        m.push((k, v))
    }
}

/// No two entries of `m` share a name.
pub open spec fn distinct_names(m: Seq<(Seq<u8>, Seq<u8>)>) -> bool {
    forall|i: int, j: int| 0 <= i < j < m.len() ==> (#[trigger] m[i].0) != (#[trigger] m[j].0)
}

/// When `k` is present, `name_index` points at its first entry.
pub proof fn lemma_name_index_props(m: Seq<(Seq<u8>, Seq<u8>)>, k: Seq<u8>)
    requires
        has_name(m, k),
    ensures
        0 <= name_index(m, k) < m.len(),
        m[name_index(m, k)].0 == k,
        forall|j: int| 0 <= j < name_index(m, k) ==> (#[trigger] m[j].0) != k,
    decreases m.len(),
{
    if m[0].0 == k {
    } else {
        let d = m.drop_first();
        assert(forall|j: int| 0 <= j < d.len() ==> #[trigger] d[j] == m[j + 1]);
        let w = choose|j: int| 0 <= j < m.len() && #[trigger] m[j].0 == k;
        assert(d[w - 1].0 == k);
        lemma_name_index_props(d, k);
        let nd = name_index(d, k);
        assert(name_index(m, k) == 1 + nd);
        assert(m[1 + nd].0 == k);
        assert forall|j: int| 0 <= j < 1 + nd implies (#[trigger] m[j].0) != k by {
            if j > 0 {
                assert(d[j - 1].0 != k);
            }
        }
    }
}

/// If entry `i` carries `k` and no earlier entry does, `name_index` is `i`.
pub proof fn lemma_name_index_is(m: Seq<(Seq<u8>, Seq<u8>)>, k: Seq<u8>, i: int)
    requires
        0 <= i < m.len(),
        m[i].0 == k,
        forall|j: int| 0 <= j < i ==> (#[trigger] m[j].0) != k,
    ensures
        has_name(m, k),
        name_index(m, k) == i,
{
    assert(has_name(m, k));
    lemma_name_index_props(m, k);
    let ni = name_index(m, k);
    if ni < i {
        assert(m[ni].0 != k);
    } else if i < ni {
        assert(m[i].0 != k);
    }
}

/// Reading back the name just inserted yields the value just inserted.
pub proof fn lemma_lookup_put_same(m: Seq<(Seq<u8>, Seq<u8>)>, k: Seq<u8>, v: Seq<u8>)
    ensures
        lookup(put(m, k, v), k) == Some(v),
{
    if has_name(m, k) {
        lemma_name_index_props(m, k);
        let i = name_index(m, k);
        let u = m.update(i, (k, v));
        lemma_name_index_is(u, k, i);
    } else {
        let u = m.push((k, v));
        assert(forall|j: int| 0 <= j < m.len() ==> (#[trigger] u[j].0) != k) by {
            assert(forall|j: int| 0 <= j < m.len() ==> (#[trigger] m[j].0) != k);
            assert(forall|j: int| 0 <= j < m.len() ==> #[trigger] u[j] == m[j]);
        }
        lemma_name_index_is(u, k, m.len() as int);
    }
}

/// Inserting under one name leaves every other name's value unchanged.
pub proof fn lemma_lookup_put_other(m: Seq<(Seq<u8>, Seq<u8>)>, k: Seq<u8>, v: Seq<u8>, k2: Seq<u8>)
    requires
        k2 != k,
    ensures
        lookup(put(m, k, v), k2) == lookup(m, k2),
{
    let u = put(m, k, v);
    if has_name(m, k) {
        lemma_name_index_props(m, k);
        let i = name_index(m, k);
        assert(forall|j: int| 0 <= j < m.len() && j != i ==> #[trigger] u[j] == m[j]);
        assert(u[i].0 == k);
        if has_name(m, k2) {
            lemma_name_index_props(m, k2);
            let i2 = name_index(m, k2);
            assert(i2 != i);
            assert(u[i2].0 == k2);
            assert(forall|j: int| 0 <= j < i2 ==> (#[trigger] u[j].0) != k2);
            lemma_name_index_is(u, k2, i2);
        } else {
            if has_name(u, k2) {
                let w = choose|j: int| 0 <= j < u.len() && #[trigger] u[j].0 == k2;
                assert(m[w].0 == k2);
            }
        }
    } else {
        assert(forall|j: int| 0 <= j < m.len() ==> #[trigger] u[j] == m[j]);
        if has_name(m, k2) {
            lemma_name_index_props(m, k2);
            lemma_name_index_is(u, k2, name_index(m, k2));
        } else {
            if has_name(u, k2) {
                let w = choose|j: int| 0 <= j < u.len() && #[trigger] u[j].0 == k2;
                assert(w == m.len());
            }
        }
    }
}

/// Insertion keeps the names of `m` pairwise distinct.
pub proof fn lemma_put_distinct(m: Seq<(Seq<u8>, Seq<u8>)>, k: Seq<u8>, v: Seq<u8>)
    requires
        distinct_names(m),
    ensures
        distinct_names(put(m, k, v)),
{
    let u = put(m, k, v);
    if has_name(m, k) {
        lemma_name_index_props(m, k);
        let i = name_index(m, k);
        assert forall|a: int, b: int| 0 <= a < b < u.len() implies (#[trigger] u[a].0) != (
        #[trigger] u[b].0) by {
            if a == i {
                assert(u[b] == m[b]);
                assert(m[i].0 == k);
            } else if b == i {
                assert(u[a] == m[a]);
                assert(m[i].0 == k);
            } else {
                assert(u[a] == m[a]);
                assert(u[b] == m[b]);
            }
        }
    } else {
        assert forall|a: int, b: int| 0 <= a < b < u.len() implies (#[trigger] u[a].0) != (
        #[trigger] u[b].0) by {
            if b == m.len() {
                assert(u[a] == m[a]);
                assert(!(m[a].0 == k));
            } else {
                assert(u[a] == m[a]);
                assert(u[b] == m[b]);
            }
        }
    }
}

/// The table that a sequence of insertions builds, applied first to last.
pub open spec fn fold_put(pairs: Seq<(Seq<u8>, Seq<u8>)>) -> Seq<(Seq<u8>, Seq<u8>)>
    decreases pairs.len(),
{
    if pairs.len() == 0 {
        Seq::empty()
    } else {
        put(fold_put(pairs.drop_last()), pairs.last().0, pairs.last().1)
    }
}

/// A table built by insertions keeps its names pairwise distinct.
pub proof fn lemma_fold_put_distinct(pairs: Seq<(Seq<u8>, Seq<u8>)>)
    ensures
        distinct_names(fold_put(pairs)),
    decreases pairs.len(),
{
    if pairs.len() == 0 {
    } else {
        let d = pairs.drop_last();
        lemma_fold_put_distinct(d);
        lemma_put_distinct(fold_put(d), pairs.last().0, pairs.last().1);
    }
}

/// The last occurrence of a name among the inserted pairs decides the value
/// the built table stores under that name.
pub proof fn lemma_last_occurrence_wins(pairs: Seq<(Seq<u8>, Seq<u8>)>, j: int)
    requires
        0 <= j < pairs.len(),
        forall|j2: int| j < j2 < pairs.len() ==> (#[trigger] pairs[j2].0) != pairs[j].0,
    ensures
        lookup(fold_put(pairs), pairs[j].0) == Some(pairs[j].1),
    decreases pairs.len(),
{
    let d = pairs.drop_last();
    if j == pairs.len() - 1 {
        lemma_lookup_put_same(fold_put(d), pairs[j].0, pairs[j].1);
    } else {
        assert(pairs[pairs.len() - 1].0 != pairs[j].0);
        assert(forall|j2: int| j < j2 < d.len() ==> (#[trigger] d[j2].0) != d[j].0);
        lemma_last_occurrence_wins(d, j);
        lemma_lookup_put_other(fold_put(d), pairs.last().0, pairs.last().1, pairs[j].0);
    }
}

/// A name that no inserted pair carries is absent from the built table.
pub proof fn lemma_absent_name(pairs: Seq<(Seq<u8>, Seq<u8>)>, k: Seq<u8>)
    requires
        forall|j: int| 0 <= j < pairs.len() ==> (#[trigger] pairs[j].0) != k,
    ensures
        lookup(fold_put(pairs), k) is None,
    decreases pairs.len(),
{
    if pairs.len() == 0 {
        assert(!has_name(fold_put(pairs), k));
    } else {
        let d = pairs.drop_last();
        lemma_absent_name(d, k);
        lemma_lookup_put_other(fold_put(d), pairs.last().0, pairs.last().1, k);
    }
}

/// The header table: ordered entries with pairwise distinct names.
#[derive(Debug)]
pub struct Headers {
    pub entries: Vec<Header>,
}

impl View for Headers {
    type V = Seq<(Seq<u8>, Seq<u8>)>;

    open spec fn view(&self) -> Seq<(Seq<u8>, Seq<u8>)> {
        self.entries@.map_values(|h: Header| h@)
    }
}

impl Headers {
    /// The table is well formed: no name occurs twice.
    pub open spec fn wf(&self) -> bool {
        distinct_names(self@)
    }

    /// An empty header table.
    pub fn new() -> (r: Headers)
        ensures
            r@ == Seq::<(Seq<u8>, Seq<u8>)>::empty(),
            r.wf(),
    {
        let r = Headers { entries: Vec::new() };
        proof {
            assert(r@ =~= Seq::<(Seq<u8>, Seq<u8>)>::empty());
        }
        r
    }

    /// Number of entries.
    pub fn len(&self) -> (n: usize)
        ensures
            n == self@.len(),
    {
        self.entries.len()
    }

    /// Last-wins insertion: an existing name has its value overwritten in
    /// place, a new name is appended.
    pub fn insert(&mut self, name: Vec<u8>, value: Vec<u8>)
        requires
            old(self).wf(),
        ensures
            final(self)@ == put(old(self)@, name@, value@),
            final(self).wf(),
    {
        let ghost m = self@;
        let ghost k = name@;
        let mut i: usize = 0;
        while i < self.entries.len()
            invariant
                self == old(self),
                m == self@,
                k == name@,
                distinct_names(m),
                0 <= i <= self.entries.len(),
                forall|j: int| 0 <= j < i ==> (#[trigger] m[j].0) != k,
            decreases self.entries.len() - i,
        {
            if bytes_eq(self.entries[i].name.as_slice(), name.as_slice()) {
                proof {
                    lemma_name_index_is(m, k, i as int);
                    lemma_put_distinct(m, k, value@);
                }
                self.entries[i] = Header { name, value };
                proof {
                    assert(self@ =~= put(m, k, value@));
                }
                return ;
            }
            i += 1;
        }
        proof {
            if has_name(m, k) {
                lemma_name_index_props(m, k);
                assert(m[name_index(m, k)].0 != k);
            }
            lemma_put_distinct(m, k, value@);
        }
        self.entries.push(Header { name, value });
        proof {
            assert(self@ =~= put(m, k, value@));
        }
    }

    /// Value stored under `name`, if any.
    pub fn get(&self, name: &[u8]) -> (r: Option<&Vec<u8>>)
        ensures
            match r {
                Some(v) => lookup(self@, name@) == Some(v@),
                None => lookup(self@, name@) is None,
            },
    {
        let mut i: usize = 0;
        while i < self.entries.len()
            invariant
                0 <= i <= self.entries.len(),
                forall|j: int| 0 <= j < i ==> (#[trigger] self@[j].0) != name@,
            decreases self.entries.len() - i,
        {
            if bytes_eq(self.entries[i].name.as_slice(), name) {
                proof {
                    lemma_name_index_is(self@, name@, i as int);
                }
                return Some(&self.entries[i].value);
            }
            i += 1;
        }
        proof {
            if has_name(self@, name@) {
                let w = choose|j: int|
                    0 <= j < self@.len() && #[trigger] self@[j].0 == name@;
                assert(self@[w].0 != name@);
            }
        }
        None
    }

    /// The entry at position `i`, for iteration by the codec.
    pub fn entry_at(&self, i: usize) -> (r: (&Vec<u8>, &Vec<u8>))
        requires
            i < self@.len(),
        ensures
            (r.0@, r.1@) == self@[i as int],
    {
        (&self.entries[i].name, &self.entries[i].value)
    }
}

} // verus!
