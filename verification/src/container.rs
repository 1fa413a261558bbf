//! The named data store threaded through a pipeline run.

use vstd::prelude::*;

use crate::ErrorView;
use crate::QupidoError;
use crate::QupidoResult;

verus! {

/// A payload a store can hold: a value with a value-preserving copy. The
/// store duplicates entries when a run clones its state, so payloads must
/// reproduce themselves exactly; shared-ownership handles do so cheaply.
pub trait ContainerData: Sized {
    /// Value-preserving copy.
    fn dup(&self) -> (r: Self)
        ensures
            r == *self,
    ;
}

impl ContainerData for bool {
    fn dup(&self) -> (r: bool)
        ensures
            r == *self,
    {
        *self
    }
}

impl ContainerData for u8 {
    fn dup(&self) -> (r: u8)
        ensures
            r == *self,
    {
        *self
    }
}

impl ContainerData for u16 {
    fn dup(&self) -> (r: u16)
        ensures
            r == *self,
    {
        *self
    }
}

impl ContainerData for u32 {
    fn dup(&self) -> (r: u32)
        ensures
            r == *self,
    {
        *self
    }
}

impl ContainerData for u64 {
    fn dup(&self) -> (r: u64)
        ensures
            r == *self,
    {
        *self
    }
}

impl ContainerData for u128 {
    fn dup(&self) -> (r: u128)
        ensures
            r == *self,
    {
        *self
    }
}

impl ContainerData for usize {
    fn dup(&self) -> (r: usize)
        ensures
            r == *self,
    {
        *self
    }
}

impl ContainerData for i8 {
    fn dup(&self) -> (r: i8)
        ensures
            r == *self,
    {
        *self
    }
}

impl ContainerData for i16 {
    fn dup(&self) -> (r: i16)
        ensures
            r == *self,
    {
        *self
    }
}

impl ContainerData for i32 {
    fn dup(&self) -> (r: i32)
        ensures
            r == *self,
    {
        *self
    }
}

impl ContainerData for i64 {
    fn dup(&self) -> (r: i64)
        ensures
            r == *self,
    {
        *self
    }
}

impl ContainerData for i128 {
    fn dup(&self) -> (r: i128)
        ensures
            r == *self,
    {
        *self
    }
}

impl ContainerData for isize {
    fn dup(&self) -> (r: isize)
        ensures
            r == *self,
    {
        *self
    }
}

impl ContainerData for String {
    fn dup(&self) -> (r: String)
        ensures
            r == *self,
    {
        self.clone()
    }
}

/// The mathematical content of an association list; a later entry for a key
/// shadows an earlier one.
pub open spec fn kv_map<T>(s: Seq<(String, T)>) -> Map<Seq<char>, T>
    decreases s.len(),
{
    if s.len() == 0 {
        Map::empty()
    } else {
        kv_map(s.drop_last()).insert(s.last().0@, s.last().1)
    }
}

/// No two entries share a key.
pub open spec fn kv_unique<T>(s: Seq<(String, T)>) -> bool {
    forall|i: int, j: int| 0 <= i < j < s.len() ==> s[i].0@ != s[j].0@
}

proof fn lemma_kv_map_props<T>(s: Seq<(String, T)>)
    ensures
        forall|k: Seq<char>| #[trigger] kv_map(s).dom().contains(k) ==> exists|i: int|
            0 <= i < s.len() && s[i].0@ == k,
        kv_unique(s) ==> forall|i: int|
            0 <= i < s.len() ==> kv_map(s).contains_key(#[trigger] s[i].0@) && kv_map(s)[s[i].0@]
                == s[i].1,
    decreases s.len(),
{
    if s.len() > 0 {
        let d = s.drop_last();
        lemma_kv_map_props(d);
        assert forall|k: Seq<char>| #[trigger] kv_map(s).dom().contains(k) implies exists|i: int|
            0 <= i < s.len() && s[i].0@ == k by {
            if k == s.last().0@ {
                assert(s[s.len() - 1].0@ == k);
            } else {
                assert(kv_map(d).dom().contains(k));
                let i = choose|i: int| 0 <= i < d.len() && d[i].0@ == k;
                assert(s[i].0@ == k);
            }
        }
        if kv_unique(s) {
            assert(kv_unique(d));
            assert forall|i: int| 0 <= i < s.len() implies kv_map(s).contains_key(
                #[trigger] s[i].0@,
            ) && kv_map(s)[s[i].0@] == s[i].1 by {
                if i == s.len() - 1 {
                } else {
                    assert(d[i] == s[i]);
                    assert(s[i].0@ != s.last().0@);
                }
            }
        }
    }
}

proof fn lemma_kv_map_push<T>(s: Seq<(String, T)>, p: (String, T))
    ensures
        kv_map(s.push(p)) == kv_map(s).insert(p.0@, p.1),
{
    assert(s.push(p).drop_last() =~= s);
    assert(s.push(p).last() == p);
}

proof fn lemma_kv_map_remove<T>(s: Seq<(String, T)>, i: int)
    requires
        kv_unique(s),
        0 <= i < s.len(),
    ensures
        kv_map(s.remove(i)) == kv_map(s).remove(s[i].0@),
    decreases s.len(),
{
    lemma_kv_map_props(s);
    lemma_kv_map_props(s.remove(i));
    let d = s.drop_last();
    if i == s.len() - 1 {
        assert(s.remove(i) =~= d);
        assert(!kv_map(d).dom().contains(s[i].0@)) by {
            lemma_kv_map_props(d);
            if kv_map(d).dom().contains(s[i].0@) {
                let j = choose|j: int| 0 <= j < d.len() && d[j].0@ == s[i].0@;
                assert(s[j].0@ == s[i].0@);
            }
        }
        assert(kv_map(s.remove(i)) =~= kv_map(s).remove(s[i].0@));
    } else {
        assert(kv_unique(d));
        lemma_kv_map_remove(d, i);
        assert(s.remove(i).drop_last() =~= d.remove(i));
        assert(s.remove(i).last() == s.last());
        assert(kv_map(s.remove(i)) == kv_map(d.remove(i)).insert(s.last().0@, s.last().1));
        assert(d[i] == s[i]);
        assert(s[i].0@ != s.last().0@);
        assert(kv_map(d).remove(s[i].0@).insert(s.last().0@, s.last().1) =~= kv_map(d).insert(
            s.last().0@,
            s.last().1,
        ).remove(s[i].0@));
    }
}

/// A named, heterogeneous-by-convention data store: a mapping from string
/// keys to payload values. Keys are unique; iteration order is unspecified.
pub struct Container<T> {
    data: Vec<(String, T)>,
}

impl<T> View for Container<T> {
    type V = Map<Seq<char>, T>;

    closed spec fn view(&self) -> Map<Seq<char>, T> {
        kv_map(self.data@)
    }
}

impl<T> Container<T> {
    /// The store's structural invariant: no two entries share a key. Holds
    /// of every store built through this interface.
    pub closed spec fn wf(&self) -> bool {
        kv_unique(self.data@)
    }

    /// An empty store.
    pub fn new() -> (r: Container<T>)
        ensures
            r@ == Map::<Seq<char>, T>::empty(),
            r.wf(),
    {
        Container { data: Vec::new() }
    }

    fn find(&self, key: &String) -> (r: Option<usize>)
        ensures
            match r {
                Some(i) => i < self.data@.len() && self.data@[i as int].0@ == key@,
                None => forall|j: int| 0 <= j < self.data@.len() ==> self.data@[j].0@ != key@,
            },
    {
        let mut i: usize = 0;
        while i < self.data.len()
            invariant
                i <= self.data@.len(),
                forall|j: int| 0 <= j < i ==> self.data@[j].0@ != key@,
            decreases self.data@.len() - i,
        {
            if self.data[i].0 == *key {
                return Some(i);
            }
            i = i + 1;
        }
        None
    }

    /// Strict insert: stores `value` under `key`, or fails with
    /// `DuplicateData` (leaving the store unchanged) when the key is already
    /// present.
    pub fn insert(&mut self, key: &str, value: T) -> (r: QupidoResult<()>)
        requires
            old(self).wf(),
        ensures
            final(self).wf(),
            !old(self)@.contains_key(key@) ==> r is Ok && final(self)@ == old(self)@.insert(
                key@,
                value,
            ),
            old(self)@.contains_key(key@) ==> final(self)@ == old(self)@ && (r matches Err(e)
                && e@ == ErrorView::DuplicateData(key@)),
    {
        proof {
            lemma_kv_map_props(self.data@);
        }
        let ks = key.to_owned();
        match self.find(&ks) {
            Some(_) => Err(QupidoError::DuplicateData(ks)),
            None => {
                proof {
                    lemma_kv_map_push(self.data@, (ks, value));
                }
                self.data.push((ks, value));
                Ok(())
            },
        }
    }

    /// Stores `value` under `key`, silently overwriting any previous value.
    pub fn upsert(&mut self, key: &str, value: T)
        requires
            old(self).wf(),
        ensures
            final(self).wf(),
            final(self)@ == old(self)@.insert(key@, value),
    {
        proof {
            lemma_kv_map_props(self.data@);
        }
        let ks = key.to_owned();
        match self.find(&ks) {
            Some(i) => {
                proof {
                    lemma_kv_map_remove(self.data@, i as int);
                    lemma_kv_map_props(self.data@.remove(i as int));
                }
                self.data.remove(i);
                proof {
                    lemma_kv_map_push(self.data@, (ks, value));
                }
                self.data.push((ks, value));
                proof {
                    assert(final(self)@ =~= old(self)@.insert(key@, value));
                }
            },
            None => {
                proof {
                    lemma_kv_map_push(self.data@, (ks, value));
                }
                self.data.push((ks, value));
            },
        }
    }

    /// Looks up `key`, failing with `DataNotFound` when it is absent.
    pub fn get(&self, key: &str) -> (r: QupidoResult<&T>)
        requires
            self.wf(),
        ensures
            self@.contains_key(key@) ==> (r matches Ok(v) && *v == self@[key@]),
            !self@.contains_key(key@) ==> (r matches Err(e) && e@ == ErrorView::DataNotFound(
                key@,
            )),
    {
        proof {
            lemma_kv_map_props(self.data@);
        }
        let ks = key.to_owned();
        match self.find(&ks) {
            Some(i) => Ok(&self.data[i].1),
            None => Err(QupidoError::DataNotFound(ks)),
        }
    }
}

impl<T: ContainerData> Container<T> {
    /// Copies the store; every payload is reproduced by its own
    /// value-preserving copy.
    pub fn duplicate(&self) -> (r: Container<T>)
        requires
            self.wf(),
        ensures
            r.wf(),
            r@ == self@,
    {
        let mut data: Vec<(String, T)> = Vec::new();
        let mut i: usize = 0;
        while i < self.data.len()
            invariant
                i <= self.data@.len(),
                data@.len() == i,
                forall|j: int| 0 <= j < i ==> #[trigger] data@[j] == self.data@[j],
                kv_unique(self.data@),
            decreases self.data@.len() - i,
        {
            let p = (self.data[i].0.clone(), self.data[i].1.dup());
            data.push(p);
            i = i + 1;
        }
        proof {
            assert(data@ =~= self.data@);
        }
        Container { data }
    }
}

} // verus!
