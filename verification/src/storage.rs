//! The storage API: key-value pairs and the operations every store offers.

use vstd::prelude::*;
use crate::error::KvError;

verus! {

/// One key-value pair.
#[derive(Debug, Clone)]
pub struct KV {
    pub key: usize,
    pub value: String,
}

/// The map after storing each pair of `kvs` in order; a later pair for the
/// same key wins.
pub open spec fn put_all(m: Map<usize, Seq<char>>, kvs: Seq<KV>) -> Map<usize, Seq<char>>
    decreases kvs.len(),
{
    if kvs.len() == 0 {
        m
    } else {
        put_all(m.insert(kvs[0].key, kvs[0].value@), kvs.drop_first())
    }
}

/// Storing one more pair folds onto the end.
pub proof fn lemma_put_all_push(m: Map<usize, Seq<char>>, kvs: Seq<KV>, kv: KV)
    ensures
        put_all(m, kvs.push(kv)) == put_all(m, kvs).insert(kv.key, kv.value@),
    decreases kvs.len(),
{
    reveal_with_fuel(put_all, 3);
    if kvs.len() == 0 {
        assert(kvs.push(kv)[0] == kv);
        assert(kvs.push(kv).drop_first() =~= Seq::<KV>::empty());
    } else {
        assert(kvs.push(kv)[0] == kvs[0]);
        assert(kvs.push(kv).drop_first() =~= kvs.drop_first().push(kv));
        lemma_put_all_push(m.insert(kvs[0].key, kvs[0].value@), kvs.drop_first(), kv);
    }
}

/// The operations of the storage engine: a store is a map from key to
/// value, a read returns the stored value or the empty string, a write
/// installs it, a delete removes it, and a range scan reports exactly the
/// keys of the interval, in order.  `BitCask`, the one implementation,
/// carries stronger contracts on its own methods, pinning down when a
/// write is refused.
pub trait KVStorage: Sized {
    spec fn st_wf(&self) -> bool;

    spec fn st_view(&self) -> Map<usize, Seq<char>>;

    fn get(&self, key: usize) -> (r: Result<String, KvError>)
        requires
            self.st_wf(),
        ensures
            match r {
                Ok(v) => v@ == if self.st_view().contains_key(key) {
                    self.st_view()[key]
                } else {
                    Seq::<char>::empty()
                },
                Err(_) => false,
            },
    ;

    fn put(&mut self, key: usize, value: String) -> (r: Result<(), KvError>)
        requires
            old(self).st_wf(),
        ensures
            final(self).st_wf(),
            r is Ok ==> final(self).st_view() == old(self).st_view().insert(key, value@),
            r is Err ==> final(self).st_view() == old(self).st_view(),
    ;

    fn delete(&mut self, key: usize) -> (r: Result<(), KvError>)
        requires
            old(self).st_wf(),
        ensures
            final(self).st_wf(),
            r is Ok,
            final(self).st_view() == old(self).st_view().remove(key),
    ;

    fn range(&self, start: usize, end: usize) -> (r: Result<Vec<KV>, KvError>)
        requires
            self.st_wf(),
        ensures
            match r {
                Ok(out) => {
                    &&& forall|l: int|
                        0 <= l < out@.len() ==> start <= (#[trigger] out@[l]).key <= end
                            && self.st_view().contains_key(out@[l].key) && out@[l].value@
                            == self.st_view()[out@[l].key]
                    &&& forall|l1: int, l2: int|
                        0 <= l1 < l2 < out@.len() ==> (#[trigger] out@[l1]).key < (
                        #[trigger] out@[l2]).key
                    &&& forall|k: usize|
                        self.st_view().contains_key(k) && start <= k <= end ==> exists|l: int|
                            0 <= l < out@.len() && (#[trigger] out@[l]).key == k
                },
                Err(_) => false,
            },
    ;

    fn batch_put(&mut self, kvs: Vec<KV>) -> (r: Result<(), KvError>)
        requires
            old(self).st_wf(),
        ensures
            final(self).st_wf(),
            r is Ok ==> final(self).st_view() == put_all(old(self).st_view(), kvs@),
            r is Err ==> final(self).st_view() == old(self).st_view(),
    ;
}

} // verus!
