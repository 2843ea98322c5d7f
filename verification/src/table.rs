use vstd::prelude::*;

verus! {

/// Byte-wise equality of two byte strings.
pub fn bytes_eq(a: &Vec<u8>, b: &Vec<u8>) -> (r: bool)
    ensures
        r == (a@ == b@),
{
    if a.len() != b.len() {
        return false;
    }
    let mut i: usize = 0;
    while i < a.len()
        invariant
            i <= a@.len(),
            a@.len() == b@.len(),
            forall|j: int| 0 <= j < i ==> a@[j] == b@[j],
        decreases a@.len() - i,
    {
        if a[i] != b[i] {
            return false;
        }
        i = i + 1;
    }
    proof {
        assert(a@ =~= b@);
    }
    true
}

/// Copies a byte string.
pub fn clone_bytes(v: &Vec<u8>) -> (r: Vec<u8>)
    ensures
        r@ == v@,
{
    let mut r: Vec<u8> = Vec::new();
    let mut i: usize = 0;
    while i < v.len()
        invariant
            i <= v@.len(),
            r@ == v@.take(i as int),
        decreases v@.len() - i,
    {
        r.push(v[i]);
        proof {
            assert(v@.take(i + 1) =~= v@.take(i as int).push(v@[i as int]));
        }
        i = i + 1;
    }
    proof {
        assert(v@.take(v@.len() as int) =~= v@);
    }
    r
}

/// A symbol table: an association list from symbol names (byte strings) to
/// values. Lookup returns the value of the latest entry with the key.
#[derive(Clone, Debug)]
pub struct SymTable<V> {
    pub entries: Vec<(Vec<u8>, V)>,
}

/// The value recorded for key `k`: that of the last entry bearing it.
pub open spec fn table_get<V>(entries: Seq<(Vec<u8>, V)>, k: Seq<u8>) -> Option<V>
    decreases entries.len(),
{
    if entries.len() == 0 {
        None
    } else if entries.last().0@ == k {
        Some(entries.last().1)
    } else {
        table_get(entries.drop_last(), k)
    }
}

/// Appending an entry changes the lookup of its key alone.
pub proof fn lemma_table_get_push<V>(entries: Seq<(Vec<u8>, V)>, e: (Vec<u8>, V), q: Seq<u8>)
    ensures
        table_get(entries.push(e), q) == if e.0@ == q {
            Some(e.1)
        } else {
            table_get(entries, q)
        },
{
    assert(entries.push(e).drop_last() =~= entries);
}

impl<V> SymTable<V> {
    /// What the table holds for key `k`.
    pub open spec fn spec_get(self, k: Seq<u8>) -> Option<V> {
        table_get(self.entries@, k)
    }

    /// An empty table.
    pub fn new() -> (t: Self)
        ensures
            t.entries@ == Seq::<(Vec<u8>, V)>::empty(),
            forall|k: Seq<u8>| #[trigger] t.spec_get(k) is None,
    {
        let t = SymTable { entries: Vec::new() };
        proof {
            assert(t.entries@ =~= Seq::<(Vec<u8>, V)>::empty());
        }
        t
    }

    /// Looks the key up, scanning from the latest entry back.
    pub fn get(&self, k: &Vec<u8>) -> (r: Option<&V>)
        ensures
            match self.spec_get(k@) {
                Some(v) => r matches Some(rv) && *rv == v,
                None => r is None,
            },
    {
        let mut i: usize = self.entries.len();
        proof {
            assert(self.entries@.take(i as int) =~= self.entries@);
        }
        while i > 0
            invariant
                i <= self.entries@.len(),
                table_get(self.entries@, k@) == table_get(self.entries@.take(i as int), k@),
            decreases i,
        {
            i = i - 1;
            proof {
                assert(self.entries@.take(i + 1).drop_last() =~= self.entries@.take(i as int));
                assert(self.entries@.take(i + 1).last() == self.entries@[i as int]);
            }
            let entry = &self.entries[i];
            if bytes_eq(&entry.0, k) {
                return Some(&entry.1);
            }
        }
        proof {
            assert(self.entries@.take(0) =~= Seq::<(Vec<u8>, V)>::empty());
        }
        None
    }

    /// Whether the table has an entry for the key.
    pub fn contains(&self, k: &Vec<u8>) -> (r: bool)
        ensures
            r == (self.spec_get(k@) is Some),
    {
        self.get(k).is_some()
    }

    /// Appends an entry; with a key not yet present this extends the table.
    pub fn push(&mut self, k: Vec<u8>, v: V)
        ensures
            final(self).entries@ == old(self).entries@.push((k, v)),
    {
        self.entries.push((k, v));
    }
}

} // verus!
