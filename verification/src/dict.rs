use vstd::prelude::*;

verus! {

use crate::strutil::str_eq;

/// The mapping described by an ordered key/value sequence: later entries win.
pub open spec fn map_of<V>(kvs: Seq<(Seq<char>, V)>) -> Map<Seq<char>, V>
    decreases kvs.len(),
{
    if kvs.len() == 0 {
        Map::empty()
    } else {
        map_of(kvs.drop_last()).insert(kvs.last().0, kvs.last().1)
    }
}

/// Keys occur at most once.
pub open spec fn distinct_keys<V>(kvs: Seq<(Seq<char>, V)>) -> bool {
    forall|i: int, j: int| 0 <= i < j < kvs.len() ==> kvs[i].0 != kvs[j].0
}

pub proof fn lemma_map_of_domain<V>(kvs: Seq<(Seq<char>, V)>, k: Seq<char>)
    ensures
        map_of(kvs).contains_key(k) <==> exists|i: int| 0 <= i < kvs.len() && kvs[i].0 == k,
    decreases kvs.len(),
{
    if kvs.len() > 0 {
        lemma_map_of_domain(kvs.drop_last(), k);
        if kvs.last().0 == k {
            assert(kvs[kvs.len() - 1].0 == k);
        } else {
            if map_of(kvs).contains_key(k) {
                let i = choose|i: int| 0 <= i < kvs.drop_last().len() && kvs.drop_last()[i].0 == k;
                assert(kvs[i].0 == k);
            }
            if exists|i: int| 0 <= i < kvs.len() && kvs[i].0 == k {
                let i = choose|i: int| 0 <= i < kvs.len() && kvs[i].0 == k;
                assert(kvs.drop_last()[i].0 == k);
            }
        }
    }
}

pub proof fn lemma_map_of_match<V>(kvs: Seq<(Seq<char>, V)>, k: Seq<char>, i: int)
    requires
        distinct_keys(kvs),
        0 <= i < kvs.len(),
        kvs[i].0 == k,
    ensures
        map_of(kvs).contains_key(k),
        map_of(kvs)[k] == kvs[i].1,
    decreases kvs.len(),
{
    if i == kvs.len() - 1 {
    } else {
        assert(kvs.drop_last()[i] == kvs[i]);
        lemma_map_of_match(kvs.drop_last(), k, i);
        assert(kvs.last().0 != k);
    }
}

pub proof fn lemma_map_of_update<V>(kvs: Seq<(Seq<char>, V)>, i: int, v: V)
    requires
        distinct_keys(kvs),
        0 <= i < kvs.len(),
    ensures
        map_of(kvs.update(i, (kvs[i].0, v))) == map_of(kvs).insert(kvs[i].0, v),
    decreases kvs.len(),
{
    let upd = kvs.update(i, (kvs[i].0, v));
    if i == kvs.len() - 1 {
        assert(upd.drop_last() =~= kvs.drop_last());
        assert(map_of(upd) =~= map_of(kvs).insert(kvs[i].0, v));
    } else {
        assert(upd.drop_last() =~= kvs.drop_last().update(i, (kvs[i].0, v)));
        assert(kvs.drop_last()[i] == kvs[i]);
        lemma_map_of_update(kvs.drop_last(), i, v);
        assert(kvs.last().0 != kvs[i].0);
        assert(map_of(upd) =~= map_of(kvs).insert(kvs[i].0, v));
    }
}

/// A table holds a key exactly when one of its entries does.
pub proof fn lemma_dict_domain<V>(d: &Dict<V>, k: Seq<char>)
    ensures
        d@.contains_key(k) <==> exists|i: int| 0 <= i < d.kv().len() && d.kv()[i].0 == k,
{
    lemma_map_of_domain(d.kv(), k);
}

/// A string-keyed table with unique keys that keeps insertion order.
#[verifier::ext_equal]
pub struct Dict<V> {
    pairs: Vec<(String, V)>,
}

impl<V> View for Dict<V> {
    type V = Map<Seq<char>, V>;

    closed spec fn view(&self) -> Map<Seq<char>, V> {
        map_of(self.kv())
    }
}

impl<V> Dict<V> {
    /// The ordered key/value pairs.
    pub closed spec fn kv(&self) -> Seq<(Seq<char>, V)> {
        Seq::new(self.pairs@.len(), |i: int| (self.pairs@[i].0@, self.pairs@[i].1))
    }

    /// Every key occurs at most once.
    pub open spec fn wf(&self) -> bool {
        distinct_keys(self.kv())
    }

    pub fn new() -> (r: Self)
        ensures
            r.kv() =~= Seq::<(Seq<char>, V)>::empty(),
            r@ =~= Map::<Seq<char>, V>::empty(),
            r.wf(),
    {
        Dict { pairs: Vec::new() }
    }

    pub fn len(&self) -> (r: usize)
        ensures
            r == self.kv().len(),
    {
        self.pairs.len()
    }

    /// The index of the entry holding a key, if any.
    fn find(&self, k: &str) -> (r: Option<usize>)
        ensures
            match r {
                Some(i) => i < self.kv().len() && self.kv()[i as int].0 == k@,
                None => forall|i: int| 0 <= i < self.kv().len() ==> self.kv()[i].0 != k@,
            },
    {
        let mut i: usize = 0;
        while i < self.pairs.len()
            invariant
                i <= self.kv().len(),
                forall|j: int| 0 <= j < i ==> self.kv()[j].0 != k@,
            decreases self.pairs.len() - i,
        {
            if str_eq(self.pairs[i].0.as_str(), k) {
                return Some(i);
            }
            i = i + 1;
        }
        None
    }

    pub fn get(&self, k: &str) -> (r: Option<&V>)
        requires
            self.wf(),
        ensures
            match r {
                Some(v) => self@.contains_key(k@) && *v == self@[k@],
                None => !self@.contains_key(k@),
            },
    {
        match self.find(k) {
            Some(i) => {
                proof {
                    lemma_map_of_match(self.kv(), k@, i as int);
                }
                Some(&self.pairs[i].1)
            }
            None => {
                proof {
                    lemma_map_of_domain(self.kv(), k@);
                }
                None
            }
        }
    }

    /// Adds or replaces the entry for a key; an existing entry keeps its position.
    pub fn insert(&mut self, k: String, v: V)
        requires
            old(self).wf(),
        ensures
            final(self).wf(),
            final(self)@ == old(self)@.insert(k@, v),
            old(self)@.contains_key(k@) ==> final(self).kv().len() == old(self).kv().len(),
            !old(self)@.contains_key(k@) ==> final(self).kv() == old(self).kv().push((k@, v)),
    {
        proof {
            lemma_map_of_domain(self.kv(), k@);
        }
        let ghost okv = self.kv();
        match self.find(&k) {
            Some(i) => {
                let ghost key = self.kv()[i as int].0;
                self.pairs.set(i, (k, v));
                proof {
                    assert(self.kv() =~= okv.update(i as int, (key, v)));
                    lemma_map_of_update(okv, i as int, v);
                }
            }
            None => {
                self.pairs.push((k, v));
                proof {
                    assert(self.kv() =~= okv.push((k@, v)));
                    assert(self.kv().drop_last() =~= okv);
                }
            }
        }
    }

    /// The key of the entry at an index.
    pub fn key_at(&self, i: usize) -> (r: &String)
        requires
            i < self.kv().len(),
        ensures
            r@ == self.kv()[i as int].0,
    {
        &self.pairs[i].0
    }

    /// The value of the entry at an index.
    pub fn value_at(&self, i: usize) -> (r: &V)
        requires
            i < self.kv().len(),
        ensures
            *r == self.kv()[i as int].1,
    {
        &self.pairs[i].1
    }

    /// Replaces the value of the entry at an index, keeping its key.
    pub fn set_value_at(&mut self, i: usize, v: V)
        requires
            old(self).wf(),
            i < old(self).kv().len(),
        ensures
            final(self).wf(),
            final(self).kv() == old(self).kv().update(i as int, (old(self).kv()[i as int].0, v)),
            final(self)@ == old(self)@.insert(old(self).kv()[i as int].0, v),
    {
        let ghost okv = self.kv();
        let ghost key = self.kv()[i as int].0;
        let kstr = {
            let p = &self.pairs[i];
            p.0.clone()
        };
        self.pairs.set(i, (kstr, v));
        proof {
            assert(self.kv() =~= okv.update(i as int, (key, v)));
            lemma_map_of_update(okv, i as int, v);
        }
    }

    /// Adds every entry of another table; on a shared key the other table wins.
    pub fn extend(&mut self, other: Dict<V>)
        requires
            old(self).wf(),
        ensures
            final(self).wf(),
            final(self)@ == old(self)@.union_prefer_right(other@),
    {
        let ghost okv = other.kv();
        let ghost base = old(self)@;
        let mut rest = other;
        proof {
            assert(base.union_prefer_right(map_of(Seq::<(Seq<char>, V)>::empty())) =~= base);
            assert(okv.subrange(0, 0) =~= Seq::<(Seq<char>, V)>::empty());
        }
        while rest.pairs.len() > 0
            invariant
                self.wf(),
                rest.kv().len() <= okv.len(),
                rest.kv() == okv.subrange(okv.len() - rest.kv().len(), okv.len() as int),
                self@ == base.union_prefer_right(
                    map_of(okv.subrange(0, okv.len() - rest.kv().len())),
                ),
            decreases rest.pairs.len(),
        {
            let ghost done = okv.subrange(0, okv.len() - rest.kv().len());
            let ghost prev_pairs = rest.pairs@;
            let ghost prev_kv = rest.kv();
            let (k, v) = rest.pairs.remove(0);
            proof {
                assert(rest.pairs@ =~= prev_pairs.subrange(1, prev_pairs.len() as int));
                assert(rest.kv() =~= prev_kv.subrange(1, prev_kv.len() as int));
                assert(rest.kv() =~= okv.subrange(okv.len() - rest.kv().len(), okv.len() as int));
                assert((k@, v) == prev_kv[0]);
                assert(done.push((k@, v)) =~= okv.subrange(0, okv.len() - rest.kv().len()));
            }
            self.insert(k, v);
            proof {
                let stepped = done.push((k@, v));
                assert(stepped.drop_last() =~= done);
                assert(base.union_prefer_right(map_of(done)).insert(stepped.last().0, stepped.last().1)
                    =~= base.union_prefer_right(map_of(stepped)));
            }
        }
        proof {
            assert(okv.subrange(0, okv.len() as int) =~= okv);
        }
    }
}

impl Dict<String> {
    /// A copy with the same entries.
    pub fn duplicate(&self) -> (r: Self)
        ensures
            r.kv() == self.kv(),
            r@ == self@,
            r.wf() == self.wf(),
    {
        let mut pairs: Vec<(String, String)> = Vec::new();
        let mut i: usize = 0;
        while i < self.pairs.len()
            invariant
                i <= self.pairs.len(),
                pairs@.len() == i,
                forall|j: int| 0 <= j < i ==> pairs@[j] == self.pairs@[j],
            decreases self.pairs.len() - i,
        {
            let k = self.pairs[i].0.clone();
            let v = self.pairs[i].1.clone();
            pairs.push((k, v));
            i = i + 1;
        }
        let r = Dict { pairs };
        proof {
            assert(r.kv() =~= self.kv());
        }
        r
    }
}

} // verus!
