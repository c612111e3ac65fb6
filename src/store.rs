use vstd::prelude::*;

use crate::value::{RedisValue, Val};

verus! {

/// The map that a sequence of entries describes; a later entry for a key
/// stands over an earlier one.
pub open spec fn entries_map(es: Seq<(Seq<char>, Val)>) -> Map<Seq<char>, Val>
    decreases es.len(),
{
    if es.len() == 0 {
        Map::empty()
    } else {
        entries_map(es.drop_last()).insert(es.last().0, es.last().1)
    }
}

pub open spec fn keys_unique(es: Seq<(Seq<char>, Val)>) -> bool {
    forall|i: int, j: int| 0 <= i < j < es.len() ==> #[trigger] es[i].0 != #[trigger] es[j].0
}

proof fn lemma_map_get(es: Seq<(Seq<char>, Val)>, i: int)
    requires
        keys_unique(es),
        0 <= i < es.len(),
    ensures
        entries_map(es).contains_key(es[i].0),
        entries_map(es)[es[i].0] == es[i].1,
    decreases es.len(),
{
    if i < es.len() - 1 {
        let dl = es.drop_last();
        assert(dl[i] == es[i]);
        assert(keys_unique(dl)) by {
            assert forall|a: int, b: int| 0 <= a < b < dl.len() implies #[trigger] dl[a].0
                != #[trigger] dl[b].0 by {
                assert(dl[a] == es[a] && dl[b] == es[b]);
            }
        }
        lemma_map_get(dl, i);
        assert(es[i].0 != es[es.len() - 1].0);
    }
}

proof fn lemma_map_absent(es: Seq<(Seq<char>, Val)>, k: Seq<char>)
    requires
        forall|i: int| 0 <= i < es.len() ==> #[trigger] es[i].0 != k,
    ensures
        !entries_map(es).contains_key(k),
    decreases es.len(),
{
    if es.len() > 0 {
        let dl = es.drop_last();
        assert forall|i: int| 0 <= i < dl.len() implies #[trigger] dl[i].0 != k by {
            assert(dl[i] == es[i]);
        }
        lemma_map_absent(dl, k);
        assert(es[es.len() - 1].0 != k);
    }
}

proof fn lemma_map_update(es: Seq<(Seq<char>, Val)>, i: int, v: Val)
    requires
        keys_unique(es),
        0 <= i < es.len(),
    ensures
        entries_map(es.update(i, (es[i].0, v))) == entries_map(es).insert(es[i].0, v),
    decreases es.len(),
{
    let nes = es.update(i, (es[i].0, v));
    let dl = es.drop_last();
    if i == es.len() - 1 {
        assert(nes.drop_last() =~= dl);
        assert(entries_map(nes) =~= entries_map(es).insert(es[i].0, v));
    } else {
        assert(keys_unique(dl)) by {
            assert forall|a: int, b: int| 0 <= a < b < dl.len() implies #[trigger] dl[a].0
                != #[trigger] dl[b].0 by {
                assert(dl[a] == es[a] && dl[b] == es[b]);
            }
        }
        lemma_map_update(dl, i, v);
        assert(nes.drop_last() =~= dl.update(i, (dl[i].0, v)));
        assert(es[i].0 != es[es.len() - 1].0);
        assert(entries_map(nes) =~= entries_map(es).insert(es[i].0, v));
    }
}

/// The key-value store: each key at most once, with the value last set for it.
pub struct Db {
    entries: Vec<(String, RedisValue)>,
}

impl Db {
    /// The entries as keys and values of the model.
    pub closed spec fn model(&self) -> Seq<(Seq<char>, Val)> {
        Seq::new(self.entries@.len(), |k: int| (self.entries@[k].0@, self.entries@[k].1@))
    }

    pub closed spec fn wf(&self) -> bool {
        keys_unique(self.model())
    }

    /// An empty store.
    pub fn new() -> (r: Db)
        ensures
            r.wf(),
            r@ == Map::<Seq<char>, Val>::empty(),
    {
        let r = Db { entries: Vec::new() };
        assert(r.model() =~= Seq::<(Seq<char>, Val)>::empty());
        r
    }

    /// Sets `key` to `value`, over any value it had.
    pub fn insert(&mut self, key: String, value: RedisValue)
        requires
            old(self).wf(),
        ensures
            final(self).wf(),
            final(self)@ == old(self)@.insert(key@, value@),
    {
        let ghost es = self.model();
        let mut i: usize = 0;
        while i < self.entries.len()
            invariant
                i <= self.entries@.len(),
                es == self.model(),
                es == old(self).model(),
                keys_unique(es),
                forall|j: int| 0 <= j < i ==> (#[trigger] es[j]).0 != key@,
            decreases self.entries@.len() - i,
        {
            if self.entries[i].0 == key {
                let ghost kv = key@;
                let ghost vv = value@;
                self.entries.set(i, (key, value));
                proof {
                    lemma_map_update(es, i as int, vv);
                    assert(self.model() =~= es.update(i as int, (es[i as int].0, vv)));
                    assert(keys_unique(self.model())) by {
                        let m = self.model();
                        assert forall|a: int, b: int| 0 <= a < b < m.len() implies #[trigger] m[a].0
                            != #[trigger] m[b].0 by {
                            assert(m[a].0 == es[a].0 && m[b].0 == es[b].0);
                        }
                    }
                }
                return;
            }
            i += 1;
        }
        let ghost kv = key@;
        let ghost vv = value@;
        self.entries.push((key, value));
        proof {
            assert(self.model() =~= es.push((kv, vv)));
            assert(self.model().drop_last() =~= es);
            let m = self.model();
            assert forall|a: int, b: int| 0 <= a < b < m.len() implies #[trigger] m[a].0
                != #[trigger] m[b].0 by {
                if b == m.len() - 1 {
                    assert(m[a] == es[a]);
                } else {
                    assert(m[a] == es[a] && m[b] == es[b]);
                }
            }
        }
    }

    /// The value that `key` was last set to, if any.
    pub fn get(&self, key: &String) -> (r: Option<&RedisValue>)
        requires
            self.wf(),
        ensures
            r is Some <==> self@.contains_key(key@),
            r is Some ==> r->Some_0@ == self@[key@],
    {
        let ghost es = self.model();
        let mut i: usize = 0;
        while i < self.entries.len()
            invariant
                i <= self.entries@.len(),
                es == self.model(),
                keys_unique(es),
                forall|j: int| 0 <= j < i ==> (#[trigger] es[j]).0 != key@,
            decreases self.entries@.len() - i,
        {
            if self.entries[i].0 == *key {
                proof {
                    lemma_map_get(es, i as int);
                }
                return Some(&self.entries[i].1);
            }
            i += 1;
        }
        proof {
            lemma_map_absent(es, key@);
        }
        None
    }
}

impl View for Db {
    type V = Map<Seq<char>, Val>;

    closed spec fn view(&self) -> Map<Seq<char>, Val> {
        entries_map(self.model())
    }
}

} // verus!
