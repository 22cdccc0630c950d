use vstd::prelude::*;

verus! {

/// No name occurs twice in `ks`.
pub open spec fn distinct(ks: Seq<Seq<char>>) -> bool {
    forall|i: int, j: int| 0 <= i < ks.len() && 0 <= j < ks.len() && i != j ==> ks[i] != ks[j]
}

/// The last position of `k` in `ks`, or -1 when it does not occur.
pub open spec fn find(ks: Seq<Seq<char>>, k: Seq<char>) -> int
    decreases ks.len(),
{
    if ks.len() == 0 {
        -1
    } else if ks.last() == k {
        ks.len() - 1
    } else {
        find(ks.drop_last(), k)
    }
}

pub proof fn lemma_find(ks: Seq<Seq<char>>, k: Seq<char>)
    ensures
        -1 <= find(ks, k) < ks.len(),
        find(ks, k) >= 0 ==> ks[find(ks, k)] == k,
        find(ks, k) < 0 ==> forall|i: int| 0 <= i < ks.len() ==> ks[i] != k,
        distinct(ks) ==> forall|i: int| 0 <= i < ks.len() && ks[i] == k ==> find(ks, k) == i,
    decreases ks.len(),
{
    if ks.len() > 0 {
        lemma_find(ks.drop_last(), k);
        assert forall|i: int| 0 <= i < ks.len() - 1 implies ks.drop_last()[i] == ks[i] by {}
        if distinct(ks) {
            assert(distinct(ks.drop_last()));
            assert forall|i: int| 0 <= i < ks.len() && ks[i] == k implies find(ks, k) == i by {
                if i < ks.len() - 1 {
                    assert(ks.drop_last()[i] == ks[i]);
                    assert(ks.last() != k);
                }
            }
        }
    }
}

/// The map from each name in `ks` to the value at the same position in `vs`.
pub open spec fn table_map<V>(ks: Seq<Seq<char>>, vs: Seq<V>) -> Map<Seq<char>, V> {
    Map::new(|k: Seq<char>| find(ks, k) >= 0, |k: Seq<char>| vs[find(ks, k)])
}

pub proof fn lemma_table_map_finite<V>(ks: Seq<Seq<char>>, vs: Seq<V>)
    ensures
        table_map(ks, vs).dom().finite(),
{
    assert forall|k: Seq<char>| table_map(ks, vs).dom().contains(k) implies #[trigger] ks.to_set().contains(k) by {
        lemma_find(ks, k);
        assert(ks.contains(k));
    }
    vstd::seq_lib::seq_to_set_is_finite(ks);
    vstd::set_lib::lemma_set_subset_finite(ks.to_set(), table_map(ks, vs).dom());
}

/// Position of the name `name` among `names`.
pub(crate) fn position(names: &Vec<String>, name: &str) -> (r: Option<usize>)
    ensures
        match r {
            Some(i) => i < names.len() && names@[i as int]@ == name@,
            None => forall|i: int| 0 <= i < names.len() ==> names@[i]@ != name@,
        },
{
    let key = String::from_str(name);
    let mut i: usize = 0;
    while i < names.len()
        invariant
            i <= names.len(),
            key@ == name@,
            forall|j: int| 0 <= j < i ==> names@[j]@ != name@,
        decreases names.len() - i,
    {
        if names[i] == key {
            return Some(i);
        }
        i += 1;
    }
    None
}

/// The shell's aliases: each name stands for a command line.
pub struct AliasTable {
    names: Vec<String>,
    values: Vec<String>,
}

impl AliasTable {
    #[verifier::type_invariant]
    spec fn well_formed(self) -> bool {
        &&& self.names.len() == self.values.len()
        &&& distinct(self.names.deep_view())
    }

    /// An empty table.
    pub fn new() -> (r: Self)
        ensures
            r@ == Map::<Seq<char>, Seq<char>>::empty(),
    {
        let r = AliasTable { names: Vec::new(), values: Vec::new() };
        assert(r@ =~= Map::<Seq<char>, Seq<char>>::empty());
        r
    }

    /// The set of names is finite.
    pub proof fn lemma_finite(&self)
        ensures
            self@.dom().finite(),
    {
        lemma_table_map_finite(self.names.deep_view(), self.values.deep_view());
    }

    /// Defines `name` as `value`, replacing an earlier definition.
    pub fn insert(&mut self, name: String, value: String)
        ensures
            final(self)@ == old(self)@.insert(name@, value@),
    {
        let mut table = AliasTable::new();
        std::mem::swap(&mut table, self);
        proof {
            use_type_invariant(&table);
        }
        let ghost ks = table.names.deep_view();
        let ghost vs = table.values.deep_view();
        let ghost nv = name@;
        let ghost before = table@;
        assert(before == old(self)@);
        let AliasTable { mut names, mut values } = table;
        match position(&names, name.as_str()) {
            Some(i) => {
                let ghost vv = value@;
                values.set(i, value);
                proof {
                    assert(ks[i as int] == names@[i as int]@);
                    lemma_find(ks, nv);
                    assert(names.deep_view() == ks);
                    let vs2 = values.deep_view();
                    assert(vs2 =~= vs.update(i as int, vv));
                    assert(find(ks, nv) == i);
                    assert forall|k: Seq<char>| #![auto] find(ks, k) >= 0 && k != nv implies vs2[find(ks, k)] == vs[find(ks, k)] by {
                        lemma_find(ks, k);
                    }
                    assert(table_map(ks, vs2) =~= before.insert(nv, vv));
                }
                *self = AliasTable { names, values };
            },
            None => {
                let ghost vv = value@;
                names.push(name);
                values.push(value);
                proof {
                    let ks2 = names.deep_view();
                    assert(ks2 =~= ks.push(nv));
                    assert(values.deep_view() =~= vs.push(vv));
                    lemma_find(ks, nv);
                    assert(ks2.drop_last() =~= ks);
                    assert forall|k: Seq<char>| k != nv implies #[trigger] find(ks2, k) == find(ks, k) by {}
                    assert(find(ks2, nv) == ks.len());
                    assert forall|a: int, b: int| 0 <= a < ks2.len() && 0 <= b < ks2.len() && a != b implies ks2[a] != ks2[b] by {
                        if a < ks.len() && b < ks.len() {
                            assert(ks2[a] == ks[a] && ks2[b] == ks[b]);
                        } else if a == ks.len() {
                            assert(ks2[b] == ks[b]);
                        } else {
                            assert(ks2[a] == ks[a]);
                        }
                    }
                    assert forall|k: Seq<char>| #![auto] find(ks, k) >= 0 implies find(ks, k) < ks.len() by {
                        lemma_find(ks, k);
                    }
                    assert(table_map(ks2, values.deep_view()) =~= before.insert(nv, vv));
                }
                *self = AliasTable { names, values };
            },
        }
    }

    /// The command line that `name` stands for.
    pub fn get(&self, name: &str) -> (r: Option<&String>)
        ensures
            match r {
                Some(v) => self@.contains_key(name@) && v@ == self@[name@],
                None => !self@.contains_key(name@),
            },
    {
        proof {
            use_type_invariant(self);
            lemma_find(self.names.deep_view(), name@);
        }
        match position(&self.names, name) {
            Some(i) => {
                assert(self.names.deep_view()[i as int] == self.names@[i as int]@);
                Some(&self.values[i])
            },
            None => None,
        }
    }

    /// Every alias once, as (name, command line) pairs, in no promised order.
    pub fn entries(&self) -> (r: Vec<(String, String)>)
        ensures
            distinct(r@.map_values(|e: (String, String)| e.0@)),
            forall|i: int| 0 <= i < r.len() ==> #[trigger] self@.contains_key(r@[i].0@) && self@[r@[i].0@] == r@[i].1@,
            forall|k: Seq<char>| #[trigger] self@.contains_key(k) ==> exists|i: int| 0 <= i < r.len() && r@[i].0@ == k,
    {
        proof {
            use_type_invariant(self);
        }
        let ghost ks = self.names.deep_view();
        let mut r: Vec<(String, String)> = Vec::new();
        let mut i: usize = 0;
        while i < self.names.len()
            invariant
                i <= self.names.len() == self.values.len(),
                ks == self.names.deep_view(),
                distinct(ks),
                r.len() == i,
                forall|j: int| 0 <= j < i ==> #[trigger] r@[j].0@ == ks[j] && r@[j].1@ == self.values@[j]@,
            decreases self.names.len() - i,
        {
            r.push((self.names[i].clone(), self.values[i].clone()));
            i += 1;
        }
        proof {
            let rn = r@.map_values(|e: (String, String)| e.0@);
            assert(rn =~= ks);
            assert forall|j: int| 0 <= j < r.len() implies #[trigger] self@.contains_key(r@[j].0@) && self@[r@[j].0@] == r@[j].1@ by {
                lemma_find(ks, ks[j]);
            }
            assert forall|k: Seq<char>| #[trigger] self@.contains_key(k) implies exists|j: int| 0 <= j < r.len() && r@[j].0@ == k by {
                lemma_find(ks, k);
                let j = find(ks, k);
                assert(r@[j].0@ == k);
            }
        }
        r
    }
}

impl View for AliasTable {
    type V = Map<Seq<char>, Seq<char>>;

    /// The aliases as a map from name to command line.
    closed spec fn view(&self) -> Map<Seq<char>, Seq<char>> {
        table_map(self.names.deep_view(), self.values.deep_view())
    }
}

} // verus!
