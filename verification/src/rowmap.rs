//! An ordered mapping from column names to string values, the shape of one
//! CSV row. Insertion keeps the first position of an existing key and
//! appends fresh keys, so column order is stable.
use vstd::prelude::*;

verus! {

/// One CSV row: column names in order, with their values.
pub struct CsvRow {
    keys: Vec<String>,
    vals: Vec<String>,
}

/// First index of `k` in `keys`, or `-1`.
pub open spec fn find_key(keys: Seq<Seq<char>>, k: Seq<char>) -> int
    decreases keys.len(),
{
    if keys.len() == 0 {
        -1
    } else if keys[0] == k {
        0
    } else {
        let r = find_key(keys.drop_first(), k);
        if r < 0 {
            -1
        } else {
            1 + r
        }
    }
}

/// What `find_key` returns: a valid first index, or `-1` when absent.
pub proof fn lemma_find_key(keys: Seq<Seq<char>>, k: Seq<char>)
    ensures
        find_key(keys, k) == -1 ==> forall|i: int| 0 <= i < keys.len() ==> keys[i] != k,
        find_key(keys, k) >= 0 ==> 0 <= find_key(keys, k) < keys.len() && keys[find_key(keys, k)]
            == k && forall|i: int| 0 <= i < find_key(keys, k) ==> keys[i] != k,
    decreases keys.len(),
{
    if keys.len() > 0 && keys[0] != k {
        lemma_find_key(keys.drop_first(), k);
        assert(forall|i: int| 1 <= i < keys.len() ==> keys[i] == keys.drop_first()[i - 1]);
    }
}

impl CsvRow {
    /// The column names, as character sequences, in order.
    pub closed spec fn key_seq(self) -> Seq<Seq<char>> {
        self.keys.deep_view()
    }

    /// The values, in column order.
    pub closed spec fn val_seq(self) -> Seq<Seq<char>> {
        self.vals.deep_view()
    }

    /// As many values as keys, and no key twice.
    pub open spec fn wf(self) -> bool {
        &&& self.key_seq().len() == self.val_seq().len()
        &&& forall|i: int, j: int|
            0 <= i < j < self.key_seq().len() ==> self.key_seq()[i] != self.key_seq()[j]
    }

    /// Whether the row has column `k`.
    pub open spec fn has_key(self, k: Seq<char>) -> bool {
        find_key(self.key_seq(), k) >= 0
    }

    /// The value under column `k`; meaningful only when the column exists.
    pub open spec fn spec_get(self, k: Seq<char>) -> Seq<char> {
        self.val_seq()[find_key(self.key_seq(), k)]
    }

    /// An empty row.
    pub fn new() -> (r: CsvRow)
        ensures
            r.wf(),
            r.key_seq() =~= Seq::<Seq<char>>::empty(),
            r.val_seq() =~= Seq::<Seq<char>>::empty(),
    {
        let r = CsvRow { keys: Vec::new(), vals: Vec::new() };
        proof {
            assert(r.key_seq() =~= Seq::<Seq<char>>::empty());
            assert(r.val_seq() =~= Seq::<Seq<char>>::empty());
        }
        r
    }

    /// Number of columns.
    pub fn len(&self) -> (n: usize)
        ensures
            n == self.key_seq().len(),
    {
        self.keys.len()
    }

    /// The column name at position `i`.
    pub fn key_at(&self, i: usize) -> (k: &String)
        requires
            i < self.key_seq().len(),
        ensures
            k@ == self.key_seq()[i as int],
    {
        &self.keys[i]
    }

    /// The value at position `i`.
    pub fn val_at(&self, i: usize) -> (v: &String)
        requires
            self.wf(),
            i < self.key_seq().len(),
        ensures
            v@ == self.val_seq()[i as int],
    {
        &self.vals[i]
    }

    /// The first position of column `k`, if any.
    pub fn find(&self, k: &String) -> (r: Option<usize>)
        ensures
            r is Some <==> self.has_key(k@),
            r is Some ==> r->Some_0 == find_key(self.key_seq(), k@),
    {
        let mut i: usize = 0;
        proof {
            lemma_find_key(self.key_seq(), k@);
        }
        while i < self.keys.len()
            invariant
                0 <= i <= self.key_seq().len(),
                self.key_seq().len() == self.keys@.len(),
                forall|j: int| 0 <= j < i ==> self.key_seq()[j] != k@,
            decreases self.keys@.len() - i,
        {
            if self.keys[i] == *k {
                proof {
                    assert(self.key_seq()[i as int] == k@);
                    lemma_find_key(self.key_seq(), k@);
                }
                return Some(i);
            }
            proof {
                assert(self.key_seq()[i as int] == self.keys@[i as int]@);
            }
            i = i + 1;
        }
        proof {
            lemma_find_key(self.key_seq(), k@);
        }
        None
    }

    /// The value under column `k`, if the column exists.
    pub fn get(&self, k: &String) -> (r: Option<&String>)
        requires
            self.wf(),
        ensures
            r is Some <==> self.has_key(k@),
            r is Some ==> r->Some_0@ == self.spec_get(k@),
    {
        proof {
            lemma_find_key(self.key_seq(), k@);
        }
        match self.find(k) {
            Some(i) => Some(&self.vals[i]),
            None => None,
        }
    }

    /// The value under column `k`, or the empty string when absent.
    pub fn get_or_empty(&self, k: &String) -> (r: String)
        requires
            self.wf(),
        ensures
            self.has_key(k@) ==> r@ == self.spec_get(k@),
            !self.has_key(k@) ==> r@ == Seq::<char>::empty(),
    {
        match self.get(k) {
            Some(v) => v.clone(),
            None => String::new(),
        }
    }

    /// Insert a value: an existing column keeps its position and takes the
    /// new value; a fresh column is appended.
    pub fn insert(&mut self, k: String, v: String)
        requires
            old(self).wf(),
        ensures
            final(self).wf(),
            old(self).has_key(k@) ==> {
                &&& final(self).key_seq() == old(self).key_seq()
                &&& final(self).val_seq() == old(self).val_seq().update(
                    find_key(old(self).key_seq(), k@),
                    v@,
                )
            },
            !old(self).has_key(k@) ==> {
                &&& final(self).key_seq() == old(self).key_seq().push(k@)
                &&& final(self).val_seq() == old(self).val_seq().push(v@)
            },
    {
        proof {
            lemma_find_key(self.key_seq(), k@);
        }
        match self.find(&k) {
            Some(i) => {
                self.vals[i] = v;
                proof {
                    assert(self.key_seq() =~~= old(self).key_seq());
                    assert(self.val_seq() =~~= old(self).val_seq().update(
                        find_key(old(self).key_seq(), k@),
                        v@,
                    ));
                }
            },
            None => {
                self.keys.push(k);
                self.vals.push(v);
                proof {
                    assert(self.key_seq() =~~= old(self).key_seq().push(
                        self.keys@[self.keys@.len() - 1]@,
                    ));
                    assert(self.val_seq() =~~= old(self).val_seq().push(
                        self.vals@[self.vals@.len() - 1]@,
                    ));
                    lemma_find_key(old(self).key_seq(), self.keys@[self.keys@.len() - 1]@);
                }
            },
        }
    }

    /// A copy of the row.
    pub fn clone_row(&self) -> (r: CsvRow)
        ensures
            r.key_seq() == self.key_seq(),
            r.val_seq() == self.val_seq(),
            r.wf() == self.wf(),
    {
        let mut keys: Vec<String> = Vec::new();
        let mut vals: Vec<String> = Vec::new();
        let mut i: usize = 0;
        while i < self.keys.len()
            invariant
                0 <= i <= self.keys@.len(),
                keys.deep_view() =~= self.key_seq().take(i as int),
            decreases self.keys@.len() - i,
        {
            let ghost prev = keys.deep_view();
            keys.push(self.keys[i].clone());
            proof {
                assert(keys.deep_view() =~~= prev.push(self.keys@[i as int]@));
                assert(self.key_seq()[i as int] == self.keys@[i as int]@);
                assert(keys.deep_view() =~~= self.key_seq().take(i + 1));
            }
            i = i + 1;
        }
        let mut j: usize = 0;
        while j < self.vals.len()
            invariant
                0 <= j <= self.vals@.len(),
                vals.deep_view() =~= self.val_seq().take(j as int),
            decreases self.vals@.len() - j,
        {
            let ghost prev = vals.deep_view();
            vals.push(self.vals[j].clone());
            proof {
                assert(vals.deep_view() =~~= prev.push(self.vals@[j as int]@));
                assert(self.val_seq()[j as int] == self.vals@[j as int]@);
                assert(vals.deep_view() =~~= self.val_seq().take(j + 1));
            }
            j = j + 1;
        }
        let r = CsvRow { keys, vals };
        proof {
            assert(r.key_seq() =~= self.key_seq());
            assert(r.val_seq() =~= self.val_seq());
        }
        r
    }
}

} // verus!
