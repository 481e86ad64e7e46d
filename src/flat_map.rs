use vstd::prelude::*;

verus! {

/// The mapping that a list of key/value pairs stands for, a later pair overriding an earlier one.
pub open spec fn pairs_view<T>(s: Seq<(String, T)>) -> Map<Seq<char>, T>
    decreases s.len(),
{
    if s.len() == 0 {
        Map::empty()
    } else {
        pairs_view(s.drop_last()).insert(s.last().0@, s.last().1)
    }
}

/// No key occurs twice among the pairs.
pub open spec fn distinct_keys<T>(s: Seq<(String, T)>) -> bool {
    forall|i: int, j: int| 0 <= i < j < s.len() ==> #[trigger] s[i].0@ != #[trigger] s[j].0@
}

/// What the pairs bind: every key of a pair, with the value of that pair.
pub proof fn lemma_pairs_view<T>(s: Seq<(String, T)>)
    requires
        distinct_keys(s),
    ensures
        forall|k: Seq<char>|
            #[trigger] pairs_view(s).contains_key(k) <==> exists|i: int|
                0 <= i < s.len() && (#[trigger] s[i]).0@ == k,
        forall|i: int| 0 <= i < s.len() ==> pairs_view(s)[(#[trigger] s[i]).0@] == s[i].1,
        pairs_view(s).dom().finite(),
        pairs_view(s).dom().len() == s.len(),
    decreases s.len(),
{
    if s.len() > 0 {
        let p = s.drop_last();
        assert forall|i: int, j: int| 0 <= i < j < p.len() implies #[trigger] p[i].0@
            != #[trigger] p[j].0@ by {
            assert(s[i] == p[i] && s[j] == p[j]);
        }
        lemma_pairs_view(p);
        assert forall|i: int| 0 <= i < p.len() implies #[trigger] p[i].0@ != s.last().0@ by {
            assert(s[i] == p[i]);
        }
        assert forall|k: Seq<char>| #[trigger]
            pairs_view(s).contains_key(k) <==> exists|i: int|
                0 <= i < s.len() && (#[trigger] s[i]).0@ == k by {
            if pairs_view(p).contains_key(k) {
                let i = choose|i: int| 0 <= i < p.len() && (#[trigger] p[i]).0@ == k;
                assert(s[i] == p[i]);
            }
            if exists|i: int| 0 <= i < s.len() && (#[trigger] s[i]).0@ == k {
                let i = choose|i: int| 0 <= i < s.len() && (#[trigger] s[i]).0@ == k;
                if i < p.len() {
                    assert(s[i] == p[i]);
                }
            }
        }
        assert forall|i: int| 0 <= i < s.len() implies pairs_view(s)[(#[trigger] s[i]).0@]
            == s[i].1 by {
            if i < p.len() {
                assert(s[i] == p[i]);
            }
        }
        assert(!pairs_view(p).contains_key(s.last().0@));
    }
}

/// A flat namespace: keys, usually dotted (`block1.conv.weight`), each bound to one value.
pub struct FlatMap<T> {
    pub entries: Vec<(String, T)>,
}

impl<T> View for FlatMap<T> {
    type V = Map<Seq<char>, T>;

    open spec fn view(&self) -> Map<Seq<char>, T> {
        pairs_view(self.entries@)
    }
}

impl<T> FlatMap<T> {
    /// Each key is held once.
    pub open spec fn wf(&self) -> bool {
        distinct_keys(self.entries@)
    }

    /// An empty namespace.
    pub fn new() -> (r: Self)
        ensures
            r.wf(),
            r@ == Map::<Seq<char>, T>::empty(),
    {
        FlatMap { entries: Vec::new() }
    }

    /// Number of keys.
    pub fn len(&self) -> (r: usize)
        requires
            self.wf(),
        ensures
            r == self@.len(),
    {
        proof {
            lemma_pairs_view(self.entries@);
        }
        self.entries.len()
    }

    /// Position of `key` among the entries.
    pub fn position(&self, key: &String) -> (r: Option<usize>)
        requires
            self.wf(),
        ensures
            self@.contains_key(key@) <==> r.is_some(),
            r matches Some(i) ==> i < self.entries@.len() && self.entries@[i as int].0@ == key@
                && self@[key@] == self.entries@[i as int].1,
    {
        proof {
            lemma_pairs_view(self.entries@);
        }
        let mut i: usize = 0;
        while i < self.entries.len()
            invariant
                self.wf(),
                0 <= i <= self.entries@.len(),
                forall|j: int| 0 <= j < i ==> (#[trigger] self.entries@[j]).0@ != key@,
            decreases self.entries@.len() - i,
        {
            if self.entries[i].0 == *key {
                proof {
                    lemma_pairs_view(self.entries@);
                    assert(self.entries@[i as int].0@ == key@);
                }
                return Some(i);
            }
            i = i + 1;
        }
        None
    }

    /// Binds `key` to `value`, replacing what it was bound to.
    pub fn insert(&mut self, key: String, value: T)
        requires
            old(self).wf(),
        ensures
            final(self).wf(),
            final(self)@ == old(self)@.insert(key@, value),
    {
        proof {
            lemma_pairs_view(self.entries@);
        }
        match self.position(&key) {
            Some(i) => {
                let ghost s = self.entries@;
                self.entries.set(i, (key, value));
                proof {
                    let t = self.entries@;
                    assert(t == s.update(i as int, (key, value)));
                    assert forall|a: int, b: int| 0 <= a < b < t.len() implies #[trigger] t[a].0@
                        != #[trigger] t[b].0@ by {
                        assert(s[a].0@ != s[b].0@);
                    }
                    lemma_pairs_view(t);
                    assert forall|k: Seq<char>| #[trigger]
                        pairs_view(t).contains_key(k) == pairs_view(s).insert(key@, value).contains_key(
                        k,
                    ) by {
                        if pairs_view(t).contains_key(k) {
                            let j = choose|j: int| 0 <= j < t.len() && (#[trigger] t[j]).0@ == k;
                            if j != i {
                                assert(s[j] == t[j]);
                            }
                        }
                        if pairs_view(s).contains_key(k) && k != key@ {
                            let j = choose|j: int| 0 <= j < s.len() && (#[trigger] s[j]).0@ == k;
                            assert(s[j] == t[j]);
                        }
                        assert(t[i as int].0@ == key@);
                    }
                    assert forall|k: Seq<char>| #[trigger]
                        pairs_view(t).contains_key(k) implies pairs_view(t)[k] == pairs_view(
                        s,
                    ).insert(key@, value)[k] by {
                        let j = choose|j: int| 0 <= j < t.len() && (#[trigger] t[j]).0@ == k;
                        if j != i {
                            assert(s[j] == t[j]);
                        }
                    }
                    assert(pairs_view(t) =~= pairs_view(s).insert(key@, value));
                }
            },
            None => {
                let ghost s = self.entries@;
                self.entries.push((key, value));
                proof {
                    let t = self.entries@;
                    assert(t.drop_last() =~= s);
                    assert forall|a: int, b: int| 0 <= a < b < t.len() implies #[trigger] t[a].0@
                        != #[trigger] t[b].0@ by {
                        if b < s.len() {
                            assert(s[a] == t[a] && s[b] == t[b]);
                        } else {
                            assert(s[a] == t[a]);
                        }
                    }
                }
            },
        }
    }

    /// The value bound to `key`, if any.
    pub fn get(&self, key: &str) -> (r: Option<&T>)
        requires
            self.wf(),
        ensures
            self@.contains_key(key@) <==> r.is_some(),
            r matches Some(v) ==> *v == self@[key@],
    {
        let k = String::from_str(key);
        match self.position(&k) {
            Some(i) => Some(&self.entries[i].1),
            None => None,
        }
    }
}

} // verus!
