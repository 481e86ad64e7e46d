use crate::cell::ValueCell;
use crate::flat_map::{distinct_keys, lemma_pairs_view, pairs_view, FlatMap};
use crate::keys::{
    has_dot, head, join_key, lemma_dot_index, lemma_join_split, lemma_split_join,
    lemma_starts_with_join, split_first, starts_with, tail,
};
use crate::state_dict::{
    entries_wf, find_entry, flat_entries, lemma_find_entry, lemma_same_entries_at,
    lemma_same_entries_find, links_ok, same_entries, lemma_find_entry_at, lemma_put_entry, lookup,
    prefixed, put_entry, StateDict, StateDictData, StateValue,
};
use vstd::prelude::*;

verus! {

/// Some other key of `m` continues `k` with a `.`: `k` names a node, not a value.
pub open spec fn shadowed<V>(m: Map<Seq<char>, V>, k: Seq<char>) -> bool {
    exists|k2: Seq<char>| m.contains_key(k2) && #[trigger] starts_with(k2, k + seq!['.'])
}

/// The keys of `m` that no other key continues with a `.`, bound as in `m`.
pub open spec fn unshadowed<V>(m: Map<Seq<char>, V>) -> Map<Seq<char>, V> {
    Map::new(|k: Seq<char>| m.contains_key(k) && !shadowed(m, k), |k: Seq<char>| m[k])
}

/// The keys `r` for which `g.r` is a key of `m`, bound as `g.r` is.
pub open spec fn sub_map<V>(m: Map<Seq<char>, V>, g: Seq<char>) -> Map<Seq<char>, V> {
    Map::new(|r: Seq<char>| m.contains_key(join_key(g, r)), |r: Seq<char>| m[join_key(g, r)])
}

/// The keys of `m` that hold no `.`.
pub open spec fn leaf_part<V>(m: Map<Seq<char>, V>) -> Map<Seq<char>, V> {
    Map::new(|k: Seq<char>| m.contains_key(k) && !has_dot(k), |k: Seq<char>| m[k])
}

/// `g` is the first segment of a dotted key of `m`.
pub open spec fn is_group<V>(m: Map<Seq<char>, V>, g: Seq<char>) -> bool {
    exists|k: Seq<char>| m.contains_key(k) && has_dot(k) && #[trigger] head(k) == g
}

/// No key of `m` continues another key of `m` with a `.`.
pub open spec fn no_shadowed<V>(m: Map<Seq<char>, V>) -> bool {
    forall|k: Seq<char>| #[trigger] m.contains_key(k) ==> !shadowed(m, k)
}

/// Names are distinct and hold no `.`.
pub open spec fn names_ok<T>(s: Seq<(String, StateValue<T>)>) -> bool {
    &&& forall|i: int, j: int| 0 <= i < j < s.len() ==> #[trigger] s[i].0@ != #[trigger] s[j].0@
    &&& forall|i: int| 0 <= i < s.len() ==> !has_dot((#[trigger] s[i]).0@)
}

/// The entries `s` are the tree of the namespace `m`: names are distinct and hold no `.`; each
/// first segment of a dotted key names a nested tree built, in the same way, from the keys below
/// it; each other key without a `.` names its leaf; no other name occurs.
pub open spec fn built<T>(s: Seq<(String, StateValue<T>)>, m: Map<Seq<char>, ValueCell<T>>) -> bool
    decreases s,
{
    &&& names_ok(s)
    &&& forall|j: int|
        0 <= j < s.len() ==> match (#[trigger] s[j]).1 {
            StateValue::ChildStateDict(c) => is_group(m, s[j].0@) && built(
                c.data.parameters@,
                sub_map(m, s[j].0@),
            ),
            StateValue::Tensor(v) => !is_group(m, s[j].0@) && leaf_part(m).contains_key(s[j].0@)
                && v == m[s[j].0@],
        }
    &&& forall|n: Seq<char>|
        is_group(m, n) || leaf_part(m).contains_key(n) ==> #[trigger] find_entry(s, n) >= 0
}

/// Being built from a namespace carries over to entry lists with the same entries.
pub proof fn lemma_same_entries_built<T>(
    a: Seq<(String, StateValue<T>)>,
    b: Seq<(String, StateValue<T>)>,
    m: Map<Seq<char>, ValueCell<T>>,
)
    requires
        same_entries(a, b),
        built(b, m),
    ensures
        built(a, m),
    decreases a,
{
    lemma_same_entries_at(a, b);
    assert forall|i: int, j: int| 0 <= i < j < a.len() implies #[trigger] a[i].0@
        != #[trigger] a[j].0@ by {
        assert(b[i].0@ != b[j].0@);
    }
    assert forall|i: int| 0 <= i < a.len() implies !has_dot((#[trigger] a[i]).0@) by {
        assert(!has_dot(b[i].0@));
    }
    assert forall|j: int| 0 <= j < a.len() implies match (#[trigger] a[j]).1 {
        StateValue::ChildStateDict(c) => is_group(m, a[j].0@) && built(
            c.data.parameters@,
            sub_map(m, a[j].0@),
        ),
        StateValue::Tensor(v) => !is_group(m, a[j].0@) && leaf_part(m).contains_key(a[j].0@) && v
            == m[a[j].0@],
    } by {
        assert(b[j].0@ == a[j].0@);
        match (a[j].1, b[j].1) {
            (StateValue::ChildStateDict(x), StateValue::ChildStateDict(y)) => {
                assert(b[j].1 == StateValue::ChildStateDict(y));
                lemma_same_entries_built(x.data.parameters@, y.data.parameters@, sub_map(m, a[j].0@));
            },
            _ => {},
        }
    }
    assert forall|n: Seq<char>| is_group(m, n) || leaf_part(m).contains_key(n) implies #[trigger] find_entry(a, n) >= 0 by {
        lemma_same_entries_find(a, b, n);
    }
}

/// The entry named by the head of `k` puts `k` in the flat namespace.
pub open spec fn entry_holds<T>(s: Seq<(String, StateValue<T>)>, k: Seq<char>) -> bool {
    let i = find_entry(s, head(k));
    i >= 0 && match s[i].1 {
        StateValue::Tensor(_) => !has_dot(k),
        StateValue::ChildStateDict(c) => has_dot(k) && flat_entries(
            c.data.parameters@,
        ).contains_key(tail(k)),
    }
}

/// What the entry named by the head of `k` binds `k` to.
pub open spec fn entry_value<T>(s: Seq<(String, StateValue<T>)>, k: Seq<char>) -> ValueCell<T> {
    match s[find_entry(s, head(k))].1 {
        StateValue::Tensor(c) => c,
        StateValue::ChildStateDict(c) => flat_entries(c.data.parameters@)[tail(k)],
    }
}

/// With distinct dot-free names, the key `k` is bound by the one entry named by its head.
pub proof fn lemma_flat_key<T>(s: Seq<(String, StateValue<T>)>, k: Seq<char>)
    requires
        names_ok(s),
    ensures
        flat_entries(s).contains_key(k) == entry_holds(s, k),
        entry_holds(s, k) ==> flat_entries(s)[k] == entry_value(s, k),
    decreases s.len(),
{
    if s.len() > 0 {
        let p = s.drop_last();
        let last = s[s.len() - 1];
        let n = last.0@;
        assert(last == s.last());
        assert forall|i: int, j: int| 0 <= i < j < p.len() implies #[trigger] p[i].0@
            != #[trigger] p[j].0@ by {
            assert(p[i] == s[i] && p[j] == s[j]);
        }
        assert forall|i: int| 0 <= i < p.len() implies !has_dot((#[trigger] p[i]).0@) by {
            assert(p[i] == s[i]);
        }
        lemma_flat_key(p, k);
        assert(!has_dot(n));
        lemma_dot_index(n);
        lemma_dot_index(k);
        if has_dot(k) {
            lemma_join_split(k);
            lemma_split_join(head(k), tail(k));
        }
        assert(find_entry(s, n) == s.len() - 1);
        if head(k) == n {
            assert forall|j: int| -1 < j < p.len() implies (#[trigger] p[j]).0@ != n by {
                assert(p[j] == s[j]);
            }
            lemma_find_entry_at(p, n, -1);
            assert(!flat_entries(p).contains_key(k));
            match last.1 {
                StateValue::Tensor(c) => {
                    assert(flat_entries(s) == flat_entries(p).insert(n, c));
                    if has_dot(k) {
                        assert(k.len() > n.len());
                    }
                },
                StateValue::ChildStateDict(t) => {
                    let f = flat_entries(t.data.parameters@);
                    assert(flat_entries(s) == flat_entries(p).union_prefer_right(prefixed(n, f)));
                    if has_dot(k) {
                        assert(k.subrange(0, n.len() + 1int) =~= n + seq!['.']);
                        assert(k.subrange(n.len() + 1int, k.len() as int) =~= tail(k));
                    } else {
                        assert(!starts_with(k, n + seq!['.']));
                    }
                },
            }
        } else {
            lemma_find_entry(p, head(k));
            let i = find_entry(p, head(k));
            if i >= 0 {
                assert(s[i] == p[i]);
            }
            assert(find_entry(s, head(k)) == i);
            match last.1 {
                StateValue::Tensor(c) => {
                    assert(flat_entries(s) == flat_entries(p).insert(n, c));
                    assert(k != n);
                },
                StateValue::ChildStateDict(t) => {
                    let f = flat_entries(t.data.parameters@);
                    assert(flat_entries(s) == flat_entries(p).union_prefer_right(prefixed(n, f)));
                    if starts_with(k, n + seq!['.']) {
                        lemma_starts_with_join(k, n);
                        lemma_split_join(n, k.subrange(n.len() + 1int, k.len() as int));
                    }
                    assert(!prefixed(n, f).contains_key(k));
                },
            }
        }
    }
}

/// A key continued inside the part under `g` is continued in the whole namespace.
pub proof fn lemma_shadowed_sub<V>(m: Map<Seq<char>, V>, g: Seq<char>, r: Seq<char>)
    requires
        !has_dot(g),
    ensures
        shadowed(sub_map(m, g), r) == shadowed(m, join_key(g, r)),
{
    let k = join_key(g, r);
    let kd = k + seq!['.'];
    if shadowed(sub_map(m, g), r) {
        let r2 = choose|r2: Seq<char>|
            sub_map(m, g).contains_key(r2) && #[trigger] starts_with(r2, r + seq!['.']);
        let k2 = join_key(g, r2);
        assert(r2.subrange(0, r.len() + 1int) == r + seq!['.']);
        assert forall|j: int| 0 <= j < kd.len() implies k2[j] == kd[j] by {
            if j > g.len() {
                assert(r2[j - g.len() - 1] == r2.subrange(0, r.len() + 1int)[j - g.len() - 1]);
            }
        }
        assert(k2.subrange(0, kd.len() as int) =~= kd);
        assert(starts_with(k2, kd));
    }
    if shadowed(m, k) {
        let k2 = choose|k2: Seq<char>| m.contains_key(k2) && #[trigger] starts_with(k2, kd);
        assert(k2.subrange(0, kd.len() as int) == kd);
        assert forall|j: int| 0 <= j < g.len() + 1 implies k2[j] == (g + seq!['.'])[j] by {
            assert(k2[j] == k2.subrange(0, kd.len() as int)[j]);
        }
        assert(k2.subrange(0, g.len() + 1int) =~= g + seq!['.']);
        lemma_starts_with_join(k2, g);
        let r2 = k2.subrange(g.len() + 1int, k2.len() as int);
        assert forall|j: int| 0 <= j < r.len() + 1 implies r2[j] == (r + seq!['.'])[j] by {
            assert(k2[g.len() + 1 + j] == k2.subrange(0, kd.len() as int)[g.len() + 1 + j]);
        }
        assert(r2.subrange(0, r.len() + 1int) =~= r + seq!['.']);
        assert(sub_map(m, g).contains_key(r2));
        assert(starts_with(r2, r + seq!['.']));
    }
}

/// A key without a `.` is continued exactly when it is the first segment of a dotted key.
pub proof fn lemma_shadowed_group<V>(m: Map<Seq<char>, V>, k: Seq<char>)
    requires
        !has_dot(k),
    ensures
        shadowed(m, k) == is_group(m, k),
{
    if shadowed(m, k) {
        let k2 = choose|k2: Seq<char>| m.contains_key(k2) && #[trigger] starts_with(
            k2,
            k + seq!['.'],
        );
        lemma_starts_with_join(k2, k);
        lemma_split_join(k, k2.subrange(k.len() + 1int, k2.len() as int));
        assert(head(k2) == k);
    }
    if is_group(m, k) {
        let k2 = choose|k2: Seq<char>| m.contains_key(k2) && has_dot(k2) && #[trigger] head(k2) == k;
        lemma_join_split(k2);
        assert(k2.subrange(0, k.len() + 1int) =~= k + seq!['.']);
        assert(starts_with(k2, k + seq!['.']));
    }
}

/// Adding a key to a namespace adds its tail to the part under its head, and to no other part.
pub proof fn lemma_sub_map_insert<V>(m: Map<Seq<char>, V>, k: Seq<char>, v: V, g: Seq<char>)
    requires
        !has_dot(g),
    ensures
        sub_map(m.insert(k, v), g) == if has_dot(k) && head(k) == g {
            sub_map(m, g).insert(tail(k), v)
        } else {
            sub_map(m, g)
        },
{
    if has_dot(k) {
        lemma_join_split(k);
    }
    assert forall|r: Seq<char>| (join_key(g, r) == k) == (has_dot(k) && head(k) == g && tail(k)
        == r) by {
        lemma_split_join(g, r);
    }
    if has_dot(k) && head(k) == g {
        assert(sub_map(m.insert(k, v), g) =~= sub_map(m, g).insert(tail(k), v));
    } else {
        assert(sub_map(m.insert(k, v), g) =~= sub_map(m, g));
    }
}

/// Storing under a dot-free name keeps names distinct and dot-free.
pub proof fn lemma_put_entry_names<T>(s: Seq<(String, StateValue<T>)>, n: String, v: StateValue<T>)
    requires
        names_ok(s),
        !has_dot(n@),
    ensures
        names_ok(put_entry(s, n, v)),
{
    lemma_find_entry(s, n@);
    let t = put_entry(s, n, v);
    let i = find_entry(s, n@);
    assert forall|a: int, b: int| 0 <= a < b < t.len() implies #[trigger] t[a].0@
        != #[trigger] t[b].0@ by {
        if i >= 0 {
            if a != i && b != i {
                assert(t[a] == s[a] && t[b] == s[b]);
            } else if a == i {
                assert(t[b] == s[b]);
                assert(s[a].0@ != s[b].0@);
            } else {
                assert(t[a] == s[a]);
                assert(s[a].0@ != s[b].0@);
            }
        } else if b < s.len() {
            assert(t[a] == s[a] && t[b] == s[b]);
        } else {
            assert(t[a] == s[a]);
        }
    }
    assert forall|a: int| 0 <= a < t.len() implies !has_dot((#[trigger] t[a]).0@) by {
        if a < s.len() && a != i {
            assert(t[a] == s[a]);
        }
    }
}

/// No pending group is named `n`.
pub open spec fn not_pending<T>(g: Seq<(String, FlatMap<ValueCell<T>>)>, n: Seq<char>) -> bool {
    forall|j: int| 0 <= j < g.len() ==> (#[trigger] g[j]).0@ != n
}

/// The pending groups of a namespace: distinct, dot-free names, each with its part.
pub open spec fn groups_ok<T>(
    m: Map<Seq<char>, ValueCell<T>>,
    g: Seq<(String, FlatMap<ValueCell<T>>)>,
) -> bool {
    &&& distinct_keys(g)
    &&& forall|j: int|
        0 <= j < g.len() ==> {
            &&& !has_dot((#[trigger] g[j]).0@)
            &&& g[j].1.wf()
            &&& g[j].1@ == sub_map(m, g[j].0@)
            &&& is_group(m, g[j].0@)
        }
}

/// What the node built from `m` holds under `n` while the groups `g` are still pending.
pub open spec fn entry_ok<T>(
    m: Map<Seq<char>, ValueCell<T>>,
    g: Seq<(String, FlatMap<ValueCell<T>>)>,
    v: Option<StateValue<T>>,
    n: Seq<char>,
) -> bool {
    if is_group(m, n) && not_pending(g, n) {
        match v {
            Some(StateValue::ChildStateDict(c)) => {
                &&& flat_entries(c.data.parameters@) == unshadowed(sub_map(m, n))
                &&& built(c.data.parameters@, sub_map(m, n))
            },
            _ => false,
        }
    } else if leaf_part(m).contains_key(n) {
        v == Some(StateValue::Tensor(m[n]))
    } else {
        v.is_none()
    }
}

/// An upper bound on the lengths of the keys.
pub open spec fn key_bound<V>(s: Seq<(String, V)>) -> nat
    decreases s.len(),
{
    if s.len() == 0 {
        0
    } else {
        let b = key_bound(s.drop_last());
        let l = s.last().0@.len() + 1;
        if l > b {
            l
        } else {
            b
        }
    }
}

pub proof fn lemma_key_bound<V>(s: Seq<(String, V)>)
    ensures
        forall|j: int| 0 <= j < s.len() ==> (#[trigger] s[j]).0@.len() < key_bound(s),
    decreases s.len(),
{
    if s.len() > 0 {
        lemma_key_bound(s.drop_last());
        assert forall|j: int| 0 <= j < s.len() implies (#[trigger] s[j]).0@.len() < key_bound(s) by {
            if j < s.len() - 1 {
                assert(s[j] == s.drop_last()[j]);
            }
        }
    }
}

/// Builds the tree of the namespace `m`, whose keys are shorter than `bound`.
fn build<T>(m: FlatMap<ValueCell<T>>, Ghost(bound): Ghost<nat>) -> (r: StateDict<T>)
    requires
        m.wf(),
        forall|k: Seq<char>| #[trigger] m@.contains_key(k) ==> k.len() < bound,
    ensures
        r.data.name@ == Seq::<char>::empty(),
        r.data.parent.is_none(),
        flat_entries(r.data.parameters@) == unshadowed(m@),
        built(r.data.parameters@, m@),
        r.data.wf(),
    decreases bound,
{
    let ghost mm = m@;
    proof {
        lemma_pairs_view(m.entries@);
    }
    let mut entries: Vec<(String, StateValue<T>)> = Vec::new();
    let mut groups: Vec<(String, FlatMap<ValueCell<T>>)> = Vec::new();
    let mut i: usize = 0;
    while i < m.entries.len()
        invariant
            m.wf(),
            mm == m@,
            i <= m.entries@.len(),
            names_ok(entries@),
            groups_ok(pairs_view(m.entries@.take(i as int)), groups@),
            forall|g: Seq<char>| #[trigger]
                is_group(pairs_view(m.entries@.take(i as int)), g) ==> !not_pending(groups@, g),
            forall|n: Seq<char>|
                entry_ok(
                    pairs_view(m.entries@.take(i as int)),
                    groups@,
                    #[trigger] lookup(entries@, n),
                    n,
                ),
        decreases m.entries@.len() - i,
    {
        let ghost mi = pairs_view(m.entries@.take(i as int));
        let ghost key = m.entries@[i as int].0@;
        let cell = m.entries[i].1.clone_handle();
        proof {
            assert(m.entries@.take(i + 1).drop_last() =~= m.entries@.take(i as int));
            assert(m.entries@.take(i + 1).last() == m.entries@[i as int]);
            lemma_pairs_view(m.entries@.take(i as int));
            assert forall|j: int| 0 <= j < i implies (#[trigger] m.entries@.take(i as int)[j]).0@
                != key by {
                assert(m.entries@.take(i as int)[j] == m.entries@[j]);
            }
            assert(!mi.contains_key(key));
            lemma_dot_index(key);
        }
        let ghost mj = mi.insert(key, cell);
        assert(pairs_view(m.entries@.take(i + 1)) == mj);
        let (first, rest) = split_first(m.entries[i].0.as_str());
        match rest {
            None => {
                let ghost s = entries@;
                let v = StateValue::Tensor(cell);
                proof {
                    lemma_find_entry(s, first@);
                    if find_entry(s, first@) >= 0 {
                        assert(entry_ok(mi, groups@, lookup(s, first@), first@));
                    }
                    assert(put_entry(s, first, v) == s.push((first, v)));
                    lemma_put_entry(s, first, v);
                    lemma_put_entry_names(s, first, v);
                }
                entries.push((first, v));
                proof {
                    assert forall|g: Seq<char>| !has_dot(g) implies sub_map(mj, g) == sub_map(
                        mi,
                        g,
                    ) by {
                        lemma_sub_map_insert(mi, key, cell, g);
                    }
                    assert forall|g: Seq<char>| #[trigger] is_group(mj, g) implies is_group(mi, g) by {
                        let k = choose|k: Seq<char>| mj.contains_key(k) && has_dot(k) && #[trigger] head(k) == g;
                        assert(k != key);
                    }
                    assert forall|n: Seq<char>|
                        entry_ok(mj, groups@, #[trigger] lookup(entries@, n), n) by {
                        assert(entry_ok(mi, groups@, lookup(s, n), n));
                        if is_group(mj, n) {
                            assert(is_group(mi, n));
                        }
                        if is_group(mi, n) {
                            assert(!not_pending(groups@, n));
                        }
                    }
                }
            },
            Some(rest) => {
                proof {
                    lemma_join_split(key);
                    assert(leaf_part(mj) =~= leaf_part(mi));
                    assert forall|g: Seq<char>| #[trigger] is_group(mi, g) implies is_group(mj, g) by {
                        let k = choose|k: Seq<char>| mi.contains_key(k) && has_dot(k) && #[trigger] head(k) == g;
                        assert(mj.contains_key(k));
                    }
                    assert(is_group(mj, first@));
                    assert forall|g: Seq<char>| #[trigger] is_group(mj, g) implies is_group(mi, g) || g
                        == first@ by {
                        let k = choose|k: Seq<char>| mj.contains_key(k) && has_dot(k) && #[trigger] head(k) == g;
                        if k != key {
                            assert(mi.contains_key(k));
                        }
                    }
                    assert forall|g: Seq<char>| !has_dot(g) && g != first@ implies sub_map(mj, g)
                        == sub_map(mi, g) by {
                        lemma_sub_map_insert(mi, key, cell, g);
                    }
                    lemma_sub_map_insert(mi, key, cell, first@);
                }
                let mut j: usize = 0;
                let mut found: Option<usize> = None;
                while j < groups.len()
                    invariant
                        j <= groups@.len(),
                        found matches Some(x) ==> x < groups@.len() && groups@[x as int].0@ == first@,
                        found.is_none() ==> forall|x: int| 0 <= x < j ==> (#[trigger] groups@[x]).0@
                            != first@,
                    decreases groups@.len() - j,
                {
                    if found.is_none() && groups[j].0 == first {
                        found = Some(j);
                    }
                    j = j + 1;
                }
                let ghost gs = groups@;
                match found {
                    Some(x) => {
                        let (name, mut sub) = groups.remove(x);
                        sub.insert(rest, cell);
                        groups.push((name, sub));
                        proof {
                            let g2 = groups@;
                            assert forall|a: int| 0 <= a < g2.len() - 1 implies #[trigger] g2[a]
                                == gs[if a < x { a } else { a + 1 }] by {}
                            assert forall|a: int, b: int| 0 <= a < b < g2.len() implies #[trigger] g2[a].0@
                                != #[trigger] g2[b].0@ by {
                                let a0 = if a < x { a } else { a + 1 };
                                if b < g2.len() - 1 {
                                    let b0 = if b < x { b } else { b + 1 };
                                    assert(gs[a0].0@ != gs[b0].0@);
                                } else {
                                    assert(gs[a0].0@ != gs[x as int].0@);
                                }
                            }
                            assert forall|a: int| 0 <= a < g2.len() implies {
                                &&& !has_dot((#[trigger] g2[a]).0@)
                                &&& g2[a].1.wf()
                                &&& g2[a].1@ == sub_map(mj, g2[a].0@)
                                &&& is_group(mj, g2[a].0@)
                            } by {
                                if a < g2.len() - 1 {
                                    let a0 = if a < x { a } else { a + 1 };
                                    assert(gs[a0].0@ != gs[x as int].0@);
                                }
                            }
                            assert forall|g: Seq<char>| #[trigger] is_group(mj, g) implies !not_pending(
                                g2,
                                g,
                            ) by {
                                if g == first@ {
                                    assert(g2[g2.len() - 1].0@ == g);
                                } else {
                                    assert(is_group(mi, g));
                                    let a0 = choose|a0: int| 0 <= a0 < gs.len() && (#[trigger] gs[a0]).0@ == g;
                                    let a = if a0 < x { a0 } else { a0 - 1 };
                                    assert(g2[a] == gs[a0]);
                                }
                            }
                            assert forall|n: Seq<char>|
                                entry_ok(mj, g2, #[trigger] lookup(entries@, n), n) by {
                                assert(entry_ok(mi, gs, lookup(entries@, n), n));
                                if is_group(mj, n) && not_pending(g2, n) {
                                    if n == first@ {
                                        assert(g2[g2.len() - 1].0@ == n);
                                    } else {
                                        assert(is_group(mi, n));
                                        let a0 = choose|a0: int| 0 <= a0 < gs.len() && (#[trigger] gs[a0]).0@ == n;
                                        let a = if a0 < x { a0 } else { a0 - 1 };
                                        assert(g2[a] == gs[a0]);
                                    }
                                }
                                if is_group(mi, n) && not_pending(gs, n) {
                                    let a0 = choose|a0: int| 0 <= a0 < gs.len() && (#[trigger] gs[a0]).0@ == n;
                                }
                            }
                        }
                    },
                    None => {
                        let mut sub: FlatMap<ValueCell<T>> = FlatMap::new();
                        sub.insert(rest, cell);
                        groups.push((first, sub));
                        proof {
                            let g2 = groups@;
                            assert(!is_group(mi, first@));
                            assert(sub_map(mi, first@) =~= Map::empty()) by {
                                assert forall|r: Seq<char>| !mi.contains_key(#[trigger] join_key(first@, r)) by {
                                    lemma_split_join(first@, r);
                                    if mi.contains_key(join_key(first@, r)) {
                                        assert(head(join_key(first@, r)) == first@);
                                    }
                                }
                            }
                            assert forall|a: int| 0 <= a < g2.len() - 1 implies #[trigger] g2[a]
                                == gs[a] by {}
                            assert forall|a: int, b: int| 0 <= a < b < g2.len() implies #[trigger] g2[a].0@
                                != #[trigger] g2[b].0@ by {
                                if b < g2.len() - 1 {
                                    assert(gs[a].0@ != gs[b].0@);
                                }
                            }
                            assert forall|a: int| 0 <= a < g2.len() implies {
                                &&& !has_dot((#[trigger] g2[a]).0@)
                                &&& g2[a].1.wf()
                                &&& g2[a].1@ == sub_map(mj, g2[a].0@)
                                &&& is_group(mj, g2[a].0@)
                            } by {
                                if a < g2.len() - 1 {
                                    assert(gs[a].0@ != first@);
                                }
                            }
                            assert forall|g: Seq<char>| #[trigger] is_group(mj, g) implies !not_pending(
                                g2,
                                g,
                            ) by {
                                if g == first@ {
                                    assert(g2[g2.len() - 1].0@ == g);
                                } else {
                                    assert(is_group(mi, g));
                                    let a0 = choose|a0: int| 0 <= a0 < gs.len() && (#[trigger] gs[a0]).0@ == g;
                                    assert(g2[a0] == gs[a0]);
                                }
                            }
                            assert forall|n: Seq<char>|
                                entry_ok(mj, g2, #[trigger] lookup(entries@, n), n) by {
                                assert(entry_ok(mi, gs, lookup(entries@, n), n));
                                if is_group(mj, n) && not_pending(g2, n) {
                                    if n == first@ {
                                        assert(g2[g2.len() - 1].0@ == n);
                                    } else {
                                        assert(is_group(mi, n));
                                        let a0 = choose|a0: int| 0 <= a0 < gs.len() && (#[trigger] gs[a0]).0@ == n;
                                        assert(g2[a0] == gs[a0]);
                                    }
                                }
                                if is_group(mi, n) && not_pending(gs, n) {
                                    let a0 = choose|a0: int| 0 <= a0 < gs.len() && (#[trigger] gs[a0]).0@ == n;
                                }
                            }
                        }
                    },
                }
            },
        }
        i = i + 1;
    }
    proof {
        assert(m.entries@.take(m.entries@.len() as int) =~= m.entries@);
    }
    let mut node = StateDict {
        data: StateDictData { name: String::new(), parent: None, parameters: entries },
    };
    proof {
        assert forall|j: int| 0 <= j < entries@.len() implies match (#[trigger] entries@[j]).1 {
            StateValue::ChildStateDict(c) => false,
            StateValue::Tensor(_) => true,
        } by {
            let n = entries@[j].0@;
            lemma_find_entry(entries@, n);
            assert(entry_ok(mm, groups@, lookup(entries@, n), n));
            let f = find_entry(entries@, n);
            if f != j {
                assert(entries@[f].0@ != entries@[j].0@);
            }
        }
    }
    while groups.len() > 0
        invariant
            mm == m@,
            forall|k: Seq<char>| #[trigger] mm.contains_key(k) ==> k.len() < bound,
            node.data.name@ == Seq::<char>::empty(),
            node.data.parent.is_none(),
            node.data.wf(),
            names_ok(node.data.parameters@),
            groups_ok(mm, groups@),
            forall|n: Seq<char>| entry_ok(mm, groups@, #[trigger] lookup(node.data.parameters@, n), n),
        decreases groups@.len(),
    {
        let ghost gs = groups@;
        let ghost s = node.data.parameters@;
        let (name, sub) = match groups.pop() {
            Some(pair) => pair,
            None => {
                proof {
                    assert(false);
                }
                return node;
            }
        };
        proof {
            assert(gs[gs.len() - 1] == (name, sub));
            let w = choose|k: Seq<char>| mm.contains_key(k) && has_dot(k) && #[trigger] head(k) == name@;
            assert(w.len() < bound);
            assert forall|r: Seq<char>| #[trigger] sub@.contains_key(r) implies r.len() < bound - 1 by {
                assert(mm.contains_key(join_key(name@, r)));
            }
        }
        let child = build(sub, Ghost((bound - 1) as nat));
        let ghost path = node.data.path_view();
        node.append_child(name, child);
        proof {
            let t = node.data.parameters@;
            let slot = crate::state_dict::put_slot(s, name@);
            lemma_put_entry(s, name, t[slot].1);
            lemma_put_entry_names(s, name, t[slot].1);
            if let StateValue::ChildStateDict(c) = t[slot].1 {
                crate::state_dict::lemma_same_entries_flat(c.data.parameters@, child.data.parameters@);
                lemma_same_entries_built(c.data.parameters@, child.data.parameters@, sub@);
            }
            let g2 = groups@;
            assert forall|a: int| 0 <= a < g2.len() implies #[trigger] g2[a] == gs[a] by {}
            assert forall|a: int, b: int| 0 <= a < b < g2.len() implies #[trigger] g2[a].0@
                != #[trigger] g2[b].0@ by {
                assert(gs[a].0@ != gs[b].0@);
            }
            assert forall|a: int| 0 <= a < g2.len() implies (#[trigger] g2[a]).0@ != name@ by {
                assert(gs[a].0@ != gs[gs.len() - 1].0@);
            }
            assert forall|n: Seq<char>| entry_ok(mm, g2, #[trigger] lookup(t, n), n) by {
                assert(entry_ok(mm, gs, lookup(s, n), n));
                if n != name@ {
                    if not_pending(g2, n) && !not_pending(gs, n) {
                        let a = choose|a: int| 0 <= a < gs.len() && !((#[trigger] gs[a]).0@ != n);
                        if a < g2.len() {
                            assert(g2[a] == gs[a]);
                        }
                    }
                }
            }
        }
    }
    proof {
        let s = node.data.parameters@;
        assert forall|k: Seq<char>|
            #[trigger] flat_entries(s).contains_key(k) == unshadowed(mm).contains_key(k) && (
            flat_entries(s).contains_key(k) ==> flat_entries(s)[k] == mm[k]) by {
            lemma_flat_key(s, k);
            lemma_dot_index(k);
            let h = head(k);
            lemma_find_entry(s, h);
            assert(entry_ok(mm, groups@, lookup(s, h), h));
            if has_dot(k) {
                lemma_join_split(k);
                lemma_shadowed_sub(mm, h, tail(k));
                if mm.contains_key(k) {
                    assert(is_group(mm, h));
                }
            } else {
                lemma_shadowed_group(mm, k);
            }
        }
        assert(flat_entries(s) =~= unshadowed(mm));
        assert forall|j: int| 0 <= j < s.len() implies match (#[trigger] s[j]).1 {
            StateValue::ChildStateDict(c) => is_group(mm, s[j].0@) && built(
                c.data.parameters@,
                sub_map(mm, s[j].0@),
            ),
            StateValue::Tensor(v) => !is_group(mm, s[j].0@) && leaf_part(mm).contains_key(s[j].0@)
                && v == mm[s[j].0@],
        } by {
            let n = s[j].0@;
            assert forall|x: int| j < x < s.len() implies (#[trigger] s[x]).0@ != n by {
                assert(s[j].0@ != s[x].0@);
            }
            lemma_find_entry_at(s, n, j);
            assert(lookup(s, n) == Some(s[j].1));
            assert(groups@.len() == 0);
            assert(not_pending(groups@, n));
            assert(entry_ok(mm, groups@, lookup(s, n), n));
            match s[j].1 {
                StateValue::ChildStateDict(c) => {
                    assert(is_group(mm, n));
                    assert(built(c.data.parameters@, sub_map(mm, n)));
                },
                StateValue::Tensor(v) => {
                    assert(!is_group(mm, n));
                    assert(leaf_part(mm).contains_key(n));
                    assert(v == mm[n]);
                },
            }
        }
        assert forall|n: Seq<char>| is_group(mm, n) || leaf_part(mm).contains_key(n) implies #[trigger] find_entry(s, n) >= 0 by {
            assert(entry_ok(mm, groups@, lookup(s, n), n));
        }
    }
    node
}

impl<T> StateDict<T> {
    /// Builds a tree from a flat namespace of dotted keys: `a.b.c` becomes the leaf `c` of the
    /// nested tree `b` of the nested tree `a`. A key that another key continues with a `.`
    /// names a nested tree, which takes the place of its value.
    pub fn from_map(parameters: FlatMap<ValueCell<T>>) -> (r: StateDict<T>)
        requires
            parameters.wf(),
        ensures
            r.data.name@ == Seq::<char>::empty(),
            r.data.parent.is_none(),
            r.data.flat() == unshadowed(parameters@),
            built(r.data.parameters@, parameters@),
            r.data.wf(),
    {
        proof {
            lemma_key_bound(parameters.entries@);
            lemma_pairs_view(parameters.entries@);
            assert forall|k: Seq<char>| #[trigger] parameters@.contains_key(k) implies k.len()
                < key_bound(parameters.entries@) by {
                let j = choose|j: int| 0 <= j < parameters.entries@.len() && (#[trigger] parameters.entries@[j]).0@ == k;
            }
        }
        build(parameters, Ghost(key_bound(parameters.entries@)))
    }
}

/// Flattening a tree built from a flat namespace gives back that namespace, when no key of it
/// continues another key with a `.`: `to_map` undoes `from_map`.
pub proof fn lemma_round_trip<T>(
    m: Map<Seq<char>, ValueCell<T>>,
    tree: StateDict<T>,
    flat: FlatMap<ValueCell<T>>,
)
    requires
        no_shadowed(m),
        tree.data.flat() == unshadowed(m),
        flat@ == tree.data.flat(),
    ensures
        flat@ == m,
{
    assert(unshadowed(m) =~= m);
}

} // verus!
