use crate::cell::{CopyInPlace, ValueCell};
use crate::flat_map::{pairs_view, FlatMap};
use crate::order::{is_permutation, is_sorted_by, sorted_order};
use crate::keys::{join, join_key, starts_with};
use vstd::prelude::*;

verus! {

/// An entry of a state tree: a leaf cell, or a nested tree.
pub enum StateValue<T> {
    Tensor(ValueCell<T>),
    ChildStateDict(StateDict<T>),
}

/// One node of a state tree.
pub struct StateDictData<T> {
    /// Local name under the parent; empty for a root.
    pub name: String,
    /// Upward link: the path of the node this one is attached under; `None` for a root.
    pub parent: Option<String>,
    /// Entries by local name.
    pub parameters: Vec<(String, StateValue<T>)>,
}

/// A hierarchical store of named value cells.
pub struct StateDict<T> {
    pub data: StateDictData<T>,
}

/// What a failed lookup asked for.
#[derive(PartialEq, Eq, Structural, Clone, Copy, Debug)]
pub enum EntryKind {
    Tensor,
    Module,
}

/// A lookup that found no entry of the requested kind under the requested name.
#[derive(Debug)]
pub struct NotFound {
    /// Path of the node that was searched.
    pub path: String,
    /// The local name that was asked for.
    pub name: String,
    pub kind: EntryKind,
}

/// Index of the last entry named `n`, or -1.
pub open spec fn find_entry<T>(s: Seq<(String, StateValue<T>)>, n: Seq<char>) -> int
    decreases s.len(),
{
    if s.len() == 0 {
        -1
    } else if s.last().0@ == n {
        s.len() - 1
    } else {
        find_entry(s.drop_last(), n)
    }
}

/// The entry named `n`, if any.
pub open spec fn lookup<T>(s: Seq<(String, StateValue<T>)>, n: Seq<char>) -> Option<
    StateValue<T>,
> {
    let i = find_entry(s, n);
    if i >= 0 {
        Some(s[i].1)
    } else {
        None
    }
}

/// The keys `g.k` for the keys `k` of `m`, bound as in `m`.
pub open spec fn prefixed<V>(g: Seq<char>, m: Map<Seq<char>, V>) -> Map<Seq<char>, V> {
    Map::new(
        |k: Seq<char>|
            starts_with(k, g + seq!['.']) && m.contains_key(k.subrange(g.len() + 1int, k.len() as int)),
        |k: Seq<char>| m[k.subrange(g.len() + 1int, k.len() as int)],
    )
}

/// The flat namespace that a node's entries stand for: a leaf under its name, the keys of a
/// nested tree under the nested tree's name and a `.`; a later entry overriding an earlier one.
pub open spec fn flat_entries<T>(s: Seq<(String, StateValue<T>)>) -> Map<Seq<char>, ValueCell<T>>
    decreases s,
{
    if s.len() == 0 {
        Map::empty()
    } else {
        let before = flat_entries(s.drop_last());
        match s.last().1 {
            StateValue::Tensor(c) => before.insert(s.last().0@, c),
            StateValue::ChildStateDict(t) => before.union_prefer_right(
                prefixed(s.last().0@, flat_entries(t.data.parameters@)),
            ),
        }
    }
}

/// Every leaf cell below the entries, depth first, in entry order.
pub open spec fn leaves_of<T>(s: Seq<(String, StateValue<T>)>) -> Seq<ValueCell<T>>
    decreases s,
{
    if s.len() == 0 {
        Seq::empty()
    } else {
        leaves_of(s.drop_last()) + match s.last().1 {
            StateValue::Tensor(c) => seq![c],
            StateValue::ChildStateDict(t) => leaves_of(t.data.parameters@),
        }
    }
}

/// Two entry lists with the same names, the same leaf cells, and nested trees with the same
/// entries, position by position (the nested trees' own names and links may differ).
pub open spec fn same_entries<T>(
    a: Seq<(String, StateValue<T>)>,
    b: Seq<(String, StateValue<T>)>,
) -> bool
    decreases a,
{
    a.len() == b.len() && (a.len() > 0 ==> {
        &&& same_entries(a.drop_last(), b.drop_last())
        &&& a.last().0@ == b.last().0@
        &&& match (a.last().1, b.last().1) {
            (StateValue::Tensor(x), StateValue::Tensor(y)) => x == y,
            (StateValue::ChildStateDict(x), StateValue::ChildStateDict(y)) => same_entries(
                x.data.parameters@,
                y.data.parameters@,
            ),
            _ => false,
        }
    })
}

/// The entries after `v` is stored under `n`: in place of the entry of that name, or added last.
pub open spec fn put_entry<T>(s: Seq<(String, StateValue<T>)>, n: String, v: StateValue<T>) -> Seq<
    (String, StateValue<T>),
> {
    let i = find_entry(s, n@);
    if i >= 0 {
        s.update(i, (n, v))
    } else {
        s.push((n, v))
    }
}

/// Where `put_entry` stores an entry named `n`.
pub open spec fn put_slot<T>(s: Seq<(String, StateValue<T>)>, n: Seq<char>) -> int {
    let i = find_entry(s, n);
    if i >= 0 {
        i
    } else {
        s.len() as int
    }
}

/// `c` is `child` attached under the name `n` of a node whose path is `p`.
pub open spec fn attached<T>(c: StateDict<T>, n: Seq<char>, p: Seq<char>, child: StateDict<T>) -> bool {
    &&& c.data.name@ == n
    &&& linked_to(c.data, p)
    &&& same_entries(c.data.parameters@, child.data.parameters@)
    &&& links_ok(c.data.parameters@, join_key(p, n))
}

/// `after` is `before` with `child` attached under `n`.
pub open spec fn appended<T>(before: StateDict<T>, after: StateDict<T>, n: String, child: StateDict<T>) -> bool {
    let s = before.data.parameters@;
    let t = after.data.parameters@;
    let slot = put_slot(s, n@);
    &&& after.data.name == before.data.name
    &&& after.data.parent == before.data.parent
    &&& t == put_entry(s, n, t[slot].1)
    &&& attached_value(t[slot].1, n@, before.data.path_view(), child)
}

/// Two nodes with the same name, link and entries, where nested trees stored at the same
/// position may be two attachments of one tree (same name, same link, same entries).
pub open spec fn same_structure<T>(a: StateDict<T>, b: StateDict<T>) -> bool {
    let s = a.data.parameters@;
    let t = b.data.parameters@;
    &&& a.data.name == b.data.name
    &&& a.data.parent == b.data.parent
    &&& s.len() == t.len()
    &&& forall|j: int|
        0 <= j < s.len() ==> {
            &&& (#[trigger] s[j]).0 == t[j].0
            &&& (s[j].1 == t[j].1 || match (s[j].1, t[j].1) {
                (StateValue::ChildStateDict(x), StateValue::ChildStateDict(y)) => {
                    &&& x.data.name@ == y.data.name@
                    &&& x.data.path_view() == y.data.path_view()
                    &&& same_entries(x.data.parameters@, y.data.parameters@)
                },
                _ => false,
            })
        }
}

/// The pairs (target leaf, source leaf) that loading the entries `s` into the entries `t`
/// copies: a leaf of `s` onto the leaf of `t` of the same name, a nested tree of `s` into the
/// nested tree of `t` of the same name; every other entry of `s` is skipped.
pub open spec fn load_pairs_of<T>(
    t: Seq<(String, StateValue<T>)>,
    s: Seq<(String, StateValue<T>)>,
) -> Seq<(ValueCell<T>, ValueCell<T>)>
    decreases s,
{
    if s.len() == 0 {
        Seq::empty()
    } else {
        load_pairs_of(t, s.drop_last()) + match (lookup(t, s.last().0@), s.last().1) {
            (Some(StateValue::Tensor(a)), StateValue::Tensor(b)) => seq![(a, b)],
            (Some(StateValue::ChildStateDict(x)), StateValue::ChildStateDict(y)) => load_pairs_of(
                x.data.parameters@,
                y.data.parameters@,
            ),
            _ => Seq::empty(),
        }
    }
}

/// The entry `e` of a source finds nothing of its own kind under its name in `t`.
pub open spec fn kind_mismatch<T>(t: Seq<(String, StateValue<T>)>, e: (String, StateValue<T>)) -> bool {
    match (lookup(t, e.0@), e.1) {
        (Some(StateValue::Tensor(_)), StateValue::Tensor(_)) => false,
        (Some(StateValue::ChildStateDict(_)), StateValue::ChildStateDict(_)) => false,
        _ => true,
    }
}

/// The text of a failed lookup: `No such parameter: <name> in <path>`, or `module` for a
/// nested tree.
pub open spec fn not_found_text(k: EntryKind, name: Seq<char>, path: Seq<char>) -> Seq<char> {
    (match k {
        EntryKind::Tensor => "No such parameter: "@,
        EntryKind::Module => "No such module: "@,
    }) + name + " in "@ + path
}

/// `v` is a nested tree that is `child` attached under `n` of a node whose path is `p`.
pub open spec fn attached_value<T>(v: StateValue<T>, n: Seq<char>, p: Seq<char>, child: StateDict<T>) -> bool {
    match v {
        StateValue::ChildStateDict(c) => attached(c, n, p, child),
        StateValue::Tensor(_) => false,
    }
}

/// The node's upward link holds the path `p`.
pub open spec fn linked_to<T>(d: StateDictData<T>, p: Seq<char>) -> bool {
    match d.parent {
        Some(q) => q@ == p,
        None => false,
    }
}

/// `d` is the nested tree `c`, handed out under the name `n` of a node whose path is `p`.
pub open spec fn handed_out<T>(d: StateDict<T>, n: Seq<char>, p: Seq<char>, c: StateDict<T>) -> bool {
    attached(d, n, p, c)
}

/// `e` reports that no entry of kind `k` is named `n` in the node whose path is `p`.
pub open spec fn reports(e: NotFound, p: Seq<char>, n: Seq<char>, k: EntryKind) -> bool {
    &&& e.path@ == p
    &&& e.name@ == n
    &&& e.kind == k
}

/// Every nested tree below the entries of the node at path `p` carries its entry's name and
/// an upward link to the path of the node that holds it.
pub open spec fn links_ok<T>(s: Seq<(String, StateValue<T>)>, p: Seq<char>) -> bool
    decreases s,
{
    forall|j: int|
        0 <= j < s.len() ==> match (#[trigger] s[j]).1 {
            StateValue::ChildStateDict(c) => {
                &&& c.data.name@ == s[j].0@
                &&& linked_to(c.data, p)
                &&& links_ok(c.data.parameters@, join_key(p, s[j].0@))
            },
            StateValue::Tensor(_) => true,
        }
}

/// Local names are distinct, at every level below the entries.
pub open spec fn entries_wf<T>(s: Seq<(String, StateValue<T>)>) -> bool
    decreases s,
{
    &&& forall|i: int, j: int| 0 <= i < j < s.len() ==> #[trigger] s[i].0@ != #[trigger] s[j].0@
    &&& forall|j: int|
        0 <= j < s.len() ==> match (#[trigger] s[j]).1 {
            StateValue::ChildStateDict(c) => entries_wf(c.data.parameters@),
            StateValue::Tensor(_) => true,
        }
}

/// Position by position, entry lists with the same entries hold the same names, the same
/// leaves, and nested trees with the same entries.
pub proof fn lemma_same_entries_at<T>(
    a: Seq<(String, StateValue<T>)>,
    b: Seq<(String, StateValue<T>)>,
)
    requires
        same_entries(a, b),
    ensures
        a.len() == b.len(),
        forall|j: int|
            0 <= j < a.len() ==> {
                &&& (#[trigger] a[j]).0@ == b[j].0@
                &&& match (a[j].1, b[j].1) {
                    (StateValue::Tensor(x), StateValue::Tensor(y)) => x == y,
                    (StateValue::ChildStateDict(x), StateValue::ChildStateDict(y)) => same_entries(
                        x.data.parameters@,
                        y.data.parameters@,
                    ),
                    _ => false,
                }
            },
    decreases a.len(),
{
    if a.len() > 0 {
        let (pa, pb) = (a.drop_last(), b.drop_last());
        lemma_same_entries_at(pa, pb);
        assert forall|j: int| 0 <= j < a.len() implies {
            &&& (#[trigger] a[j]).0@ == b[j].0@
            &&& match (a[j].1, b[j].1) {
                (StateValue::Tensor(x), StateValue::Tensor(y)) => x == y,
                (StateValue::ChildStateDict(x), StateValue::ChildStateDict(y)) => same_entries(
                    x.data.parameters@,
                    y.data.parameters@,
                ),
                _ => false,
            }
        } by {
            if j < a.len() - 1 {
                assert(a[j] == pa[j] && b[j] == pb[j]);
            }
        }
    }
}

/// Entry lists with the same entries find the same positions by name.
pub proof fn lemma_same_entries_find<T>(
    a: Seq<(String, StateValue<T>)>,
    b: Seq<(String, StateValue<T>)>,
    n: Seq<char>,
)
    requires
        same_entries(a, b),
    ensures
        find_entry(a, n) == find_entry(b, n),
    decreases a.len(),
{
    if a.len() > 0 {
        lemma_same_entries_find(a.drop_last(), b.drop_last(), n);
    }
}

/// Distinct names at every level carry over to entry lists with the same entries.
pub proof fn lemma_same_entries_wf<T>(a: Seq<(String, StateValue<T>)>, b: Seq<(String, StateValue<T>)>)
    requires
        same_entries(a, b),
        entries_wf(b),
    ensures
        entries_wf(a),
    decreases a,
{
    lemma_same_entries_at(a, b);
    assert forall|i: int, j: int| 0 <= i < j < a.len() implies #[trigger] a[i].0@ != #[trigger] a[j].0@ by {
        assert(b[i].0@ != b[j].0@);
    }
    assert forall|j: int| 0 <= j < a.len() implies match (#[trigger] a[j]).1 {
        StateValue::ChildStateDict(c) => entries_wf(c.data.parameters@),
        StateValue::Tensor(_) => true,
    } by {
        match (a[j].1, b[j].1) {
            (StateValue::ChildStateDict(x), StateValue::ChildStateDict(y)) => {
                assert(b[j].1 == StateValue::ChildStateDict(y));
                lemma_same_entries_wf(x.data.parameters@, y.data.parameters@);
            },
            _ => {},
        }
    }
}

/// Storing under a name keeps names distinct at every level, when what is stored keeps them.
pub proof fn lemma_put_entry_wf<T>(s: Seq<(String, StateValue<T>)>, n: String, v: StateValue<T>)
    requires
        entries_wf(s),
        match v {
            StateValue::ChildStateDict(c) => entries_wf(c.data.parameters@),
            StateValue::Tensor(_) => true,
        },
    ensures
        entries_wf(put_entry(s, n, v)),
{
    lemma_find_entry(s, n@);
    let t = put_entry(s, n, v);
    let i = find_entry(s, n@);
    assert forall|a: int, b: int| 0 <= a < b < t.len() implies #[trigger] t[a].0@
        != #[trigger] t[b].0@ by {
        if i >= 0 {
            if a != i && b != i {
                assert(t[a] == s[a] && t[b] == s[b]);
            } else if a == i {
                assert(t[b] == s[b]);
                assert(s[a].0@ != s[b].0@);
            } else {
                assert(t[a] == s[a]);
                assert(s[a].0@ != s[b].0@);
            }
        } else if b < s.len() {
            assert(t[a] == s[a] && t[b] == s[b]);
        } else {
            assert(t[a] == s[a]);
        }
    }
    assert forall|j: int| 0 <= j < t.len() implies match (#[trigger] t[j]).1 {
        StateValue::ChildStateDict(c) => entries_wf(c.data.parameters@),
        StateValue::Tensor(_) => true,
    } by {
        if j != put_slot(s, n@) {
            assert(t[j] == s[j]);
        }
    }
}

/// Storing an entry whose nested tree, if any, is linked keeps a node's links.
pub proof fn lemma_links_put<T>(s: Seq<(String, StateValue<T>)>, n: String, v: StateValue<T>, p: Seq<char>)
    requires
        links_ok(s, p),
        match v {
            StateValue::ChildStateDict(c) => {
                &&& c.data.name@ == n@
                &&& linked_to(c.data, p)
                &&& links_ok(c.data.parameters@, join_key(p, n@))
            },
            StateValue::Tensor(_) => true,
        },
    ensures
        links_ok(put_entry(s, n, v), p),
{
    lemma_find_entry(s, n@);
    let t = put_entry(s, n, v);
    assert forall|j: int| 0 <= j < t.len() implies match (#[trigger] t[j]).1 {
        StateValue::ChildStateDict(c) => {
            &&& c.data.name@ == t[j].0@
            &&& linked_to(c.data, p)
            &&& links_ok(c.data.parameters@, join_key(p, t[j].0@))
        },
        StateValue::Tensor(_) => true,
    } by {
        if j != put_slot(s, n@) {
            assert(t[j] == s[j]);
        }
    }
}

/// Entry lists with the same entries stand for the same flat namespace.
pub proof fn lemma_same_entries_flat<T>(
    a: Seq<(String, StateValue<T>)>,
    b: Seq<(String, StateValue<T>)>,
)
    requires
        same_entries(a, b),
    ensures
        flat_entries(a) == flat_entries(b),
        leaves_of(a) == leaves_of(b),
    decreases a,
{
    if a.len() > 0 {
        lemma_same_entries_flat(a.drop_last(), b.drop_last());
        match (a.last().1, b.last().1) {
            (StateValue::ChildStateDict(x), StateValue::ChildStateDict(y)) => {
                lemma_same_entries_flat(x.data.parameters@, y.data.parameters@);
            },
            _ => {},
        }
    }
}

pub proof fn lemma_same_entries_symmetric<T>(
    a: Seq<(String, StateValue<T>)>,
    b: Seq<(String, StateValue<T>)>,
)
    requires
        same_entries(a, b),
    ensures
        same_entries(b, a),
    decreases a,
{
    if a.len() > 0 {
        lemma_same_entries_symmetric(a.drop_last(), b.drop_last());
        match (a.last().1, b.last().1) {
            (StateValue::ChildStateDict(x), StateValue::ChildStateDict(y)) => {
                lemma_same_entries_symmetric(x.data.parameters@, y.data.parameters@);
            },
            _ => {},
        }
    }
}

pub proof fn lemma_same_entries_transitive<T>(
    a: Seq<(String, StateValue<T>)>,
    b: Seq<(String, StateValue<T>)>,
    c: Seq<(String, StateValue<T>)>,
)
    requires
        same_entries(a, b),
        same_entries(b, c),
    ensures
        same_entries(a, c),
    decreases a,
{
    if a.len() > 0 {
        lemma_same_entries_transitive(a.drop_last(), b.drop_last(), c.drop_last());
        match (a.last().1, b.last().1, c.last().1) {
            (
                StateValue::ChildStateDict(x),
                StateValue::ChildStateDict(y),
                StateValue::ChildStateDict(z),
            ) => {
                lemma_same_entries_transitive(
                    x.data.parameters@,
                    y.data.parameters@,
                    z.data.parameters@,
                );
            },
            _ => {},
        }
    }
}

/// Rewrites the names and upward links of the nested trees below the entries of the node at
/// path `path`, keeping every entry and leaf cell.
fn relinked<T>(parameters: &Vec<(String, StateValue<T>)>, path: &String) -> (r: Vec<
    (String, StateValue<T>),
>)
    ensures
        same_entries(r@, parameters@),
        links_ok(r@, path@),
    decreases parameters,
{
    let mut out: Vec<(String, StateValue<T>)> = Vec::new();
    let mut i: usize = 0;
    while i < parameters.len()
        invariant
            i <= parameters@.len(),
            same_entries(out@, parameters@.take(i as int)),
            links_ok(out@, path@),
        decreases parameters@.len() - i,
    {
        let entry = &parameters[i];
        proof {
            assert(parameters@.take(i + 1).drop_last() =~= parameters@.take(i as int));
            assert(parameters@.take(i + 1).last() == parameters@[i as int]);
        }
        let value = match &entry.1 {
            StateValue::Tensor(c) => StateValue::Tensor(c.clone_handle()),
            StateValue::ChildStateDict(child) => {
                assert(decreases_to!(parameters => child.data.parameters));
                let below_path = join(path, &entry.0);
                let below = relinked(&child.data.parameters, &below_path);
                StateValue::ChildStateDict(
                    StateDict {
                        data: StateDictData {
                            name: entry.0.clone(),
                            parent: Some(path.clone()),
                            parameters: below,
                        },
                    },
                )
            },
        };
        let ghost before = out@;
        out.push((entry.0.clone(), value));
        proof {
            assert(out@.drop_last() =~= before);
            assert forall|j: int| 0 <= j < out@.len() implies match (#[trigger] out@[j]).1 {
                StateValue::ChildStateDict(c) => {
                    &&& c.data.name@ == out@[j].0@
                    &&& linked_to(c.data, path@)
                    &&& links_ok(c.data.parameters@, join_key(path@, out@[j].0@))
                },
                StateValue::Tensor(_) => true,
            } by {
                if j < before.len() {
                    assert(out@[j] == before[j]);
                }
            }
        }
        i = i + 1;
    }
    assert(parameters@.take(parameters@.len() as int) =~= parameters@);
    out
}

/// The parts joined in order.
pub open spec fn concat(parts: Seq<Seq<char>>) -> Seq<char>
    decreases parts.len(),
{
    if parts.len() == 0 {
        Seq::empty()
    } else {
        concat(parts.drop_last()) + parts.last()
    }
}

/// The line of a leaf named `n` whose value reads `t`: `n: t`.
pub open spec fn leaf_line(n: Seq<char>, t: Seq<char>) -> Seq<char> {
    n + ": "@ + t + "\n"@
}

/// The lines of a nested tree named `n` whose own dump is `d`: `n:`, then `d`.
pub open spec fn node_lines(n: Seq<char>, d: Seq<char>) -> Seq<char> {
    n + ":\n"@ + d
}

/// `x` is the part of a dump for the `k`-th entry in the order `o` of the entries `s`: a leaf's
/// line with some text for its value, or a nested tree's name line and a dump of that tree.
pub open spec fn part_ok<T>(s: Seq<(String, StateValue<T>)>, o: Seq<usize>, k: int, x: Seq<char>) -> bool
    decreases s, 0int,
{
    0 <= k < o.len() && o[k] < s.len() && match s[o[k] as int].1 {
        StateValue::Tensor(_) => exists|t: Seq<char>| #[trigger] leaf_line(s[o[k] as int].0@, t) == x,
        StateValue::ChildStateDict(c) => exists|d: Seq<char>|
            #[trigger] node_lines(s[o[k] as int].0@, d) == x && rendered(c.data.parameters@, d),
    }
}

/// `text` is a dump of the entries `s`: their parts in the order of their names, a leaf as
/// `name: <text of its value>` and a line break, a nested tree as `name:`, a line break and
/// its own dump.
pub open spec fn rendered<T>(s: Seq<(String, StateValue<T>)>, text: Seq<char>) -> bool
    decreases s, 1int,
{
    exists|o: Seq<usize>, parts: Seq<Seq<char>>|
        #![trigger is_permutation(o, s.len() as int), concat(parts)]
        {
            &&& is_permutation(o, s.len() as int)
            &&& is_sorted_by(o, s.map_values(|e: (String, StateValue<T>)| e.0@))
            &&& parts.len() == s.len()
            &&& text == concat(parts)
            &&& forall|k: int| 0 <= k < s.len() ==> part_ok(s, o, k, #[trigger] parts[k])
        }
}

/// The path of the root of every tree.
pub open spec fn root_path() -> Seq<char> {
    seq!['r', 'o', 'o', 't']
}

pub proof fn lemma_find_entry<T>(s: Seq<(String, StateValue<T>)>, n: Seq<char>)
    ensures
        -1 <= find_entry(s, n) < s.len(),
        find_entry(s, n) >= 0 ==> s[find_entry(s, n)].0@ == n,
        forall|j: int| find_entry(s, n) < j < s.len() ==> (#[trigger] s[j]).0@ != n,
    decreases s.len(),
{
    if s.len() > 0 {
        lemma_find_entry(s.drop_last(), n);
        assert forall|j: int| find_entry(s, n) < j < s.len() implies (#[trigger] s[j]).0@ != n by {
            if j < s.len() - 1 {
                assert(s[j] == s.drop_last()[j]);
            }
        }
        if find_entry(s, n) >= 0 && find_entry(s, n) < s.len() - 1 {
            assert(s[find_entry(s, n)] == s.drop_last()[find_entry(s, n)]);
        }
    }
}

/// An index that holds `n`, with no later index holding it, is the one `find_entry` gives.
pub proof fn lemma_find_entry_at<T>(s: Seq<(String, StateValue<T>)>, n: Seq<char>, i: int)
    requires
        -1 <= i < s.len(),
        i >= 0 ==> s[i].0@ == n,
        forall|j: int| i < j < s.len() ==> (#[trigger] s[j]).0@ != n,
    ensures
        find_entry(s, n) == i,
    decreases s.len(),
{
    if s.len() > 0 && i < s.len() - 1 {
        let p = s.drop_last();
        assert forall|j: int| i < j < p.len() implies (#[trigger] p[j]).0@ != n by {
            assert(p[j] == s[j]);
        }
        if i >= 0 {
            assert(p[i] == s[i]);
        }
        lemma_find_entry_at(p, n, i);
    }
}

/// Storing under a name changes what that name finds and nothing else.
pub proof fn lemma_put_entry<T>(s: Seq<(String, StateValue<T>)>, n: String, v: StateValue<T>)
    ensures
        forall|m: Seq<char>|
            #[trigger] lookup(put_entry(s, n, v), m) == if m == n@ {
                Some(v)
            } else {
                lookup(s, m)
            },
        find_entry(put_entry(s, n, v), n@) == put_slot(s, n@),
{
    let t = put_entry(s, n, v);
    lemma_find_entry(s, n@);
    let slot = put_slot(s, n@);
    assert forall|j: int| slot < j < t.len() implies (#[trigger] t[j]).0@ != n@ by {
        assert(t[j] == s[j]);
    }
    lemma_find_entry_at(t, n@, slot);
    assert forall|m: Seq<char>|
        #[trigger] lookup(put_entry(s, n, v), m) == if m == n@ {
            Some(v)
        } else {
            lookup(s, m)
        } by {
        if m != n@ {
            lemma_find_entry(s, m);
            let i = find_entry(s, m);
            assert forall|j: int| i < j < t.len() implies (#[trigger] t[j]).0@ != m by {
                if j != slot {
                    assert(t[j] == s[j]);
                }
            }
            if i >= 0 {
                assert(t[i] == s[i]);
            }
            lemma_find_entry_at(t, m, i);
        }
    }
}

impl<T> StateDictData<T> {
    /// Local names are distinct at every level, and every nested tree is linked to the node
    /// that holds it.
    pub open spec fn wf(&self) -> bool {
        entries_wf(self.parameters@) && links_ok(self.parameters@, self.path_view())
    }

    /// The node's path: `root` for a root, else its parent's path, a `.` and its name.
    pub open spec fn path_view(&self) -> Seq<char> {
        match self.parent {
            None => root_path(),
            Some(p) => join_key(p@, self.name@),
        }
    }

    /// The flat namespace that the node stands for.
    pub open spec fn flat(&self) -> Map<Seq<char>, ValueCell<T>> {
        flat_entries(self.parameters@)
    }

    /// The node's path, for diagnostics.
    pub fn path(&self) -> (r: String)
        ensures
            r@ == self.path_view(),
    {
        match &self.parent {
            None => {
                let r = String::from_str("root");
                proof {
                    reveal_strlit("root");
                    assert(r@ =~= root_path());
                }
                r
            },
            Some(p) => join(p, &self.name),
        }
    }

    /// Index of the last entry named `key`.
    fn position(&self, key: &String) -> (r: Option<usize>)
        ensures
            match r {
                Some(i) => i < self.parameters@.len() && find_entry(self.parameters@, key@) == i,
                None => find_entry(self.parameters@, key@) == -1,
            },
    {
        let mut i: usize = self.parameters.len();
        while i > 0
            invariant
                i <= self.parameters@.len(),
                forall|j: int| i <= j < self.parameters@.len() ==> (#[trigger] self.parameters@[j]).0@
                    != key@,
            decreases i,
        {
            if self.parameters[i - 1].0 == *key {
                proof {
                    lemma_find_entry_at(self.parameters@, key@, i - 1);
                }
                return Some(i - 1);
            }
            i = i - 1;
        }
        proof {
            lemma_find_entry_at(self.parameters@, key@, -1);
        }
        None
    }

    /// The leaf cell named `key`.
    pub fn tensor(&self, key: &str) -> (r: Result<ValueCell<T>, NotFound>)
        ensures
            match lookup(self.parameters@, key@) {
                Some(StateValue::Tensor(c)) => r == Ok::<ValueCell<T>, NotFound>(c),
                _ => (r matches Err(e) && reports(e, self.path_view(), key@, EntryKind::Tensor)),
            },
    {
        let k = String::from_str(key);
        if let Some(i) = self.position(&k) {
            if let StateValue::Tensor(c) = &self.parameters[i].1 {
                return Ok(c.clone_handle());
            }
        }
        Err(NotFound { path: self.path(), name: k, kind: EntryKind::Tensor })
    }

    /// The nested tree named `module_name`, handed out with its upward link set to this node.
    pub fn child_state_dict(&self, module_name: String) -> (r: Result<StateDict<T>, NotFound>)
        ensures
            match lookup(self.parameters@, module_name@) {
                Some(StateValue::ChildStateDict(c)) => (r matches Ok(d) && handed_out(
                    d,
                    module_name@,
                    self.path_view(),
                    c,
                )),
                _ => (r matches Err(e) && reports(
                    e,
                    self.path_view(),
                    module_name@,
                    EntryKind::Module,
                )),
            },
    {
        if let Some(i) = self.position(&module_name) {
            if let StateValue::ChildStateDict(c) = &self.parameters[i].1 {
                let path = self.path();
                let below_path = join(&path, &module_name);
                let parameters = relinked(&c.data.parameters, &below_path);
                return Ok(
                    StateDict { data: StateDictData { name: module_name, parent: Some(path), parameters } },
                );
            }
        }
        Err(NotFound { path: self.path(), name: module_name, kind: EntryKind::Module })
    }

    /// The pairs (target leaf, source leaf) that loading `source` into this node copies.
    pub fn load_pairs(&self, source: &StateDictData<T>) -> (r: Vec<(ValueCell<T>, ValueCell<T>)>)
        ensures
            r@ == load_pairs_of(self.parameters@, source.parameters@),
        decreases source,
    {
        let mut out: Vec<(ValueCell<T>, ValueCell<T>)> = Vec::new();
        let mut i: usize = 0;
        while i < source.parameters.len()
            invariant
                i <= source.parameters@.len(),
                out@ == load_pairs_of(self.parameters@, source.parameters@.take(i as int)),
            decreases source.parameters@.len() - i,
        {
            let entry = &source.parameters[i];
            proof {
                assert(source.parameters@.take(i + 1).drop_last() =~= source.parameters@.take(
                    i as int,
                ));
                assert(source.parameters@.take(i + 1).last() == source.parameters@[i as int]);
                lemma_find_entry(self.parameters@, entry.0@);
            }
            let ghost before = out@;
            if let Some(j) = self.position(&entry.0) {
                match (&self.parameters[j].1, &entry.1) {
                    (StateValue::Tensor(a), StateValue::Tensor(b)) => {
                        out.push((a.clone_handle(), b.clone_handle()));
                    },
                    (StateValue::ChildStateDict(x), StateValue::ChildStateDict(y)) => {
                        assert(decreases_to!(source => y.data));
                        let mut below = x.data.load_pairs(&y.data);
                        out.append(&mut below);
                    },
                    _ => {},
                }
            }
            assert(out@ =~= load_pairs_of(self.parameters@, source.parameters@.take(i + 1)));
            i = i + 1;
        }
        assert(source.parameters@.take(source.parameters@.len() as int) =~= source.parameters@);
        out
    }

    /// Loads the values of `state_dict` into this node's leaves, in place: each leaf of the
    /// source is copied onto this node's leaf of the same name, each nested tree is loaded into
    /// this node's nested tree of the same name. Loading is not strict: a name that only the
    /// source has, or that names a leaf on one side and a nested tree on the other, is skipped,
    /// and entries that only this node has are left as they are.
    ///
    /// Returns the pairs (this node's leaf, the source's leaf) that were copied, in the order
    /// of the copies. A cell's value is shared with every other owner of the cell, so what it
    /// holds after the call is not stated here; which cells were written, and from which, is.
    pub fn load(&self, state_dict: StateDict<T>) -> (r: Vec<(ValueCell<T>, ValueCell<T>)>) where
        T: CopyInPlace + Clone,
        ensures
            r@ == load_pairs_of(self.parameters@, state_dict.data.parameters@),
    {
        let pairs = self.load_pairs(&state_dict.data);
        let mut i: usize = 0;
        while i < pairs.len()
            invariant
                i <= pairs@.len(),
            decreases pairs@.len() - i,
        {
            let pair = &pairs[i];
            pair.0.copy_from(&pair.1);
            i = i + 1;
        }
        pairs
    }

    /// The entries, by local name.
    pub fn parameters(&self) -> (r: &Vec<(String, StateValue<T>)>)
        ensures
            r == &self.parameters,
    {
        &self.parameters
    }

    /// The local names of the entries, in entry order.
    pub fn names(&self) -> (r: Vec<String>)
        ensures
            r@.len() == self.parameters@.len(),
            forall|j: int| 0 <= j < r@.len() ==> (#[trigger] r@[j]) == self.parameters@[j].0,
    {
        let mut r: Vec<String> = Vec::new();
        let mut i: usize = 0;
        while i < self.parameters.len()
            invariant
                i <= self.parameters@.len(),
                r@.len() == i,
                forall|j: int| 0 <= j < i ==> (#[trigger] r@[j]) == self.parameters@[j].0,
            decreases self.parameters@.len() - i,
        {
            r.push(self.parameters[i].0.clone());
            i = i + 1;
        }
        r
    }

    /// The positions of the entries in the order of their names.
    pub fn render_order(&self) -> (r: Vec<usize>)
        ensures
            is_permutation(r@, self.parameters@.len() as int),
            is_sorted_by(r@, self.parameters@.map_values(|e: (String, StateValue<T>)| e.0@)),
    {
        let names = self.names();
        let r = sorted_order(&names);
        proof {
            assert(names@.map_values(|s: String| s@) =~= self.parameters@.map_values(
                |e: (String, StateValue<T>)| e.0@,
            ));
        }
        r
    }

    /// A text dump of the tree below this node, entries in the order of their names, so that
    /// two trees with the same entries give the same text: `name: <value>` for a leaf, and
    /// `name:` followed by the nested tree's dump for a nested tree.
    pub fn render(&self) -> (r: String) where T: std::fmt::Debug
        ensures
            rendered(self.parameters@, r@),
        decreases self,
    {
        let order = self.render_order();
        let ghost s = self.parameters@;
        let mut out = String::new();
        let ghost mut parts: Seq<Seq<char>> = Seq::empty();
        let mut i: usize = 0;
        while i < order.len()
            invariant
                s == self.parameters@,
                i <= order@.len(),
                is_permutation(order@, s.len() as int),
                parts.len() == i,
                out@ == concat(parts),
                forall|k: int| 0 <= k < i ==> part_ok(s, order@, k, #[trigger] parts[k]),
            decreases order@.len() - i,
        {
            let entry = &self.parameters[order[i]];
            let ghost start = out@;
            let ghost piece: Seq<char>;
            out.append(entry.0.as_str());
            match &entry.1 {
                StateValue::Tensor(c) => {
                    out.append(": ");
                    let text = c.describe();
                    out.append(text.as_str());
                    out.append("\n");
                    proof {
                        piece = leaf_line(entry.0@, text@);
                    }
                },
                StateValue::ChildStateDict(child) => {
                    assert(decreases_to!(self => child.data));
                    out.append(":\n");
                    let below = child.data.render();
                    out.append(below.as_str());
                    proof {
                        piece = node_lines(entry.0@, below@);
                    }
                },
            }
            proof {
                assert(out@ =~= start + piece);
                let p2 = parts.push(piece);
                assert(p2.drop_last() =~= parts);
                assert forall|k: int| 0 <= k < i + 1 implies part_ok(s, order@, k, #[trigger] p2[k]) by {
                    if k < i {
                        assert(p2[k] == parts[k]);
                    }
                }
                parts = p2;
            }
            i = i + 1;
        }
        proof {
            assert(is_sorted_by(order@, s.map_values(|e: (String, StateValue<T>)| e.0@)));
            assert(rendered(s, out@));
        }
        out
    }

    /// Every leaf cell below this node, depth first, in entry order.
    pub fn to_vec(&self) -> (r: Vec<ValueCell<T>>)
        ensures
            r@ == leaves_of(self.parameters@),
        decreases self,
    {
        let mut out: Vec<ValueCell<T>> = Vec::new();
        let mut i: usize = 0;
        while i < self.parameters.len()
            invariant
                i <= self.parameters@.len(),
                out@ == leaves_of(self.parameters@.take(i as int)),
            decreases self.parameters@.len() - i,
        {
            let ghost before = out@;
            let entry = &self.parameters[i];
            match &entry.1 {
                StateValue::Tensor(c) => {
                    out.push(c.clone_handle());
                },
                StateValue::ChildStateDict(child) => {
                    assert(decreases_to!(self => child.data));
                    let mut below = child.data.to_vec();
                    out.append(&mut below);
                },
            }
            proof {
                assert(self.parameters@.take(i + 1).drop_last() =~= self.parameters@.take(i as int));
                assert(self.parameters@.take(i + 1).last() == self.parameters@[i as int]);
                assert(out@ =~= leaves_of(self.parameters@.take(i + 1)));
            }
            i = i + 1;
        }
        assert(self.parameters@.take(self.parameters@.len() as int) =~= self.parameters@);
        out
    }

    /// The flat namespace of this node: each leaf under its dotted key.
    pub fn to_map(&self) -> (r: FlatMap<ValueCell<T>>)
        ensures
            r.wf(),
            r@ == self.flat(),
        decreases self,
    {
        let mut out: FlatMap<ValueCell<T>> = FlatMap::new();
        let mut i: usize = 0;
        while i < self.parameters.len()
            invariant
                i <= self.parameters@.len(),
                out.wf(),
                out@ == flat_entries(self.parameters@.take(i as int)),
            decreases self.parameters@.len() - i,
        {
            let entry = &self.parameters[i];
            proof {
                assert(self.parameters@.take(i + 1).drop_last() =~= self.parameters@.take(i as int));
                assert(self.parameters@.take(i + 1).last() == self.parameters@[i as int]);
            }
            match &entry.1 {
                StateValue::Tensor(c) => {
                    out.insert(entry.0.clone(), c.clone_handle());
                },
                StateValue::ChildStateDict(child) => {
                    assert(decreases_to!(self => child.data));
                    let below = child.data.to_map();
                    let ghost base = out@;
                    let mut j: usize = 0;
                    while j < below.entries.len()
                        invariant
                            j <= below.entries@.len(),
                            out.wf(),
                            out@ == base.union_prefer_right(
                                prefixed(entry.0@, pairs_view(below.entries@.take(j as int))),
                            ),
                        decreases below.entries@.len() - j,
                    {
                        let pair = &below.entries[j];
                        let ghost m = pairs_view(below.entries@.take(j as int));
                        out.insert(join(&entry.0, &pair.0), pair.1.clone_handle());
                        proof {
                            assert(below.entries@.take(j + 1).drop_last() =~= below.entries@.take(
                                j as int,
                            ));
                            lemma_prefixed_insert(entry.0@, m, pair.0@, pair.1);
                            assert(out@ =~= base.union_prefer_right(
                                prefixed(entry.0@, pairs_view(below.entries@.take(j + 1))),
                            ));
                        }
                        j = j + 1;
                    }
                    assert(below.entries@.take(below.entries@.len() as int) =~= below.entries@);
                },
            }
            i = i + 1;
        }
        assert(self.parameters@.take(self.parameters@.len() as int) =~= self.parameters@);
        out
    }
}

/// Adding `k` to a map adds `g.k` to its prefixed form.
pub proof fn lemma_prefixed_insert<V>(g: Seq<char>, m: Map<Seq<char>, V>, k: Seq<char>, v: V)
    ensures
        prefixed(g, m.insert(k, v)) == prefixed(g, m).insert(join_key(g, k), v),
{
    let jk = join_key(g, k);
    assert(jk.subrange(0, g.len() + 1int) =~= g + seq!['.']);
    assert(jk.subrange(g.len() + 1int, jk.len() as int) =~= k);
    assert forall|x: Seq<char>| #[trigger]
        prefixed(g, m.insert(k, v)).contains_key(x) == prefixed(g, m).insert(jk, v).contains_key(
            x,
        ) by {
        if starts_with(x, g + seq!['.']) && x.subrange(g.len() + 1int, x.len() as int) == k {
            crate::keys::lemma_starts_with_join(x, g);
        }
    }
    assert forall|x: Seq<char>| #[trigger]
        prefixed(g, m.insert(k, v)).contains_key(x) implies prefixed(g, m.insert(k, v))[x]
        == prefixed(g, m).insert(jk, v)[x] by {
        if starts_with(x, g + seq!['.']) && x.subrange(g.len() + 1int, x.len() as int) == k {
            crate::keys::lemma_starts_with_join(x, g);
        }
    }
    assert(prefixed(g, m.insert(k, v)) =~= prefixed(g, m).insert(jk, v));
}

impl NotFound {
    /// A human-readable account of the failure, with the searched path and the missing name.
    pub fn message(&self) -> (r: String)
        ensures
            r@ == not_found_text(self.kind, self.name@, self.path@),
    {
        let mut r = match self.kind {
            EntryKind::Tensor => String::from_str("No such parameter: "),
            EntryKind::Module => String::from_str("No such module: "),
        };
        r.append(self.name.as_str());
        r.append(" in ");
        r.append(self.path.as_str());
        r
    }
}

/// Attaching the same tree twice under one name leaves the node as attaching it once: the
/// second attachment takes the place of the first, and the upward link is rewritten, not added.
pub proof fn lemma_append_child_twice<T>(
    t0: StateDict<T>,
    t1: StateDict<T>,
    t2: StateDict<T>,
    n: String,
    child: StateDict<T>,
)
    requires
        appended(t0, t1, n, child),
        appended(t1, t2, n, child),
    ensures
        same_structure(t1, t2),
{
    let s0 = t0.data.parameters@;
    let s1 = t1.data.parameters@;
    let s2 = t2.data.parameters@;
    let slot = put_slot(s0, n@);
    lemma_find_entry(s0, n@);
    lemma_put_entry(s0, n, s1[slot].1);
    assert(find_entry(s1, n@) == slot);
    assert(put_slot(s1, n@) == slot);
    assert(s2 == s1.update(slot, (n, s2[slot].1)));
    assert forall|j: int| 0 <= j < s1.len() implies {
        &&& (#[trigger] s1[j]).0 == s2[j].0
        &&& (s1[j].1 == s2[j].1 || match (s1[j].1, s2[j].1) {
            (StateValue::ChildStateDict(x), StateValue::ChildStateDict(y)) => {
                &&& x.data.name@ == y.data.name@
                &&& x.data.path_view() == y.data.path_view()
                &&& same_entries(x.data.parameters@, y.data.parameters@)
            },
            _ => false,
        })
    } by {
        if j == slot {
            assert(s1[j] == (n, s1[slot].1));
            match (s1[slot].1, s2[slot].1) {
                (StateValue::ChildStateDict(x), StateValue::ChildStateDict(y)) => {
                    lemma_same_entries_symmetric(y.data.parameters@, child.data.parameters@);
                    lemma_same_entries_transitive(
                        x.data.parameters@,
                        child.data.parameters@,
                        y.data.parameters@,
                    );
                },
                _ => {},
            }
        }
    }
}

/// The leaf found under a name is among the leaves of the entries, and so is every leaf of the
/// nested tree found under a name.
pub proof fn lemma_lookup_leaves<T>(t: Seq<(String, StateValue<T>)>, n: Seq<char>)
    ensures
        lookup(t, n) matches Some(StateValue::Tensor(a)) ==> leaves_of(t).contains(a),
        lookup(t, n) matches Some(StateValue::ChildStateDict(x)) ==> forall|c: ValueCell<T>|
            leaves_of(x.data.parameters@).contains(c) ==> #[trigger] leaves_of(t).contains(c),
    decreases t.len(),
{
    if t.len() > 0 {
        let p = t.drop_last();
        lemma_lookup_leaves(p, n);
        let last_part = match t.last().1 {
            StateValue::Tensor(c) => seq![c],
            StateValue::ChildStateDict(x) => leaves_of(x.data.parameters@),
        };
        assert(leaves_of(t) == leaves_of(p) + last_part);
        assert forall|c: ValueCell<T>| leaves_of(p).contains(c) implies leaves_of(t).contains(c) by {
            let i = choose|i: int| 0 <= i < leaves_of(p).len() && leaves_of(p)[i] == c;
            assert(leaves_of(t)[i] == c);
        }
        assert forall|c: ValueCell<T>| last_part.contains(c) implies leaves_of(t).contains(c) by {
            let i = choose|i: int| 0 <= i < last_part.len() && last_part[i] == c;
            assert(leaves_of(t)[leaves_of(p).len() + i] == c);
        }
        if t.last().0@ != n {
            lemma_find_entry(p, n);
            let f = find_entry(p, n);
            if f >= 0 {
                assert(t[f] == p[f]);
            }
            assert(lookup(t, n) == lookup(p, n));
        } else {
            assert(lookup(t, n) == Some(t.last().1));
            if let StateValue::Tensor(a) = t.last().1 {
                assert(last_part[0] == a);
                assert(last_part.contains(a));
            }
        }
    }
}

/// Loading writes only leaves of the tree loaded into, and reads only leaves of the source:
/// entries that only the target holds, and cells outside both trees, are never touched.
pub proof fn lemma_load_within<T>(t: Seq<(String, StateValue<T>)>, s: Seq<(String, StateValue<T>)>)
    ensures
        forall|i: int|
            0 <= i < load_pairs_of(t, s).len() ==> leaves_of(t).contains(
                (#[trigger] load_pairs_of(t, s)[i]).0,
            ) && leaves_of(s).contains(load_pairs_of(t, s)[i].1),
    decreases s,
{
    if s.len() > 0 {
        let p = s.drop_last();
        lemma_load_within(t, p);
        let n = s.last().0@;
        lemma_lookup_leaves(t, n);
        let step = match (lookup(t, n), s.last().1) {
            (Some(StateValue::Tensor(a)), StateValue::Tensor(b)) => seq![(a, b)],
            (Some(StateValue::ChildStateDict(x)), StateValue::ChildStateDict(y)) => load_pairs_of(
                x.data.parameters@,
                y.data.parameters@,
            ),
            _ => Seq::empty(),
        };
        let last_part = match s.last().1 {
            StateValue::Tensor(c) => seq![c],
            StateValue::ChildStateDict(y) => leaves_of(y.data.parameters@),
        };
        assert(leaves_of(s) == leaves_of(p) + last_part);
        let all = load_pairs_of(t, s);
        assert(all == load_pairs_of(t, p) + step);
        match (lookup(t, n), s.last().1) {
            (Some(StateValue::ChildStateDict(x)), StateValue::ChildStateDict(y)) => {
                lemma_load_within(x.data.parameters@, y.data.parameters@);
            },
            _ => {},
        }
        assert forall|i: int| 0 <= i < all.len() implies leaves_of(t).contains(
            (#[trigger] all[i]).0,
        ) && leaves_of(s).contains(all[i].1) by {
            let q = load_pairs_of(t, p);
            if i < q.len() {
                assert(all[i] == q[i]);
                let j = choose|j: int| 0 <= j < leaves_of(p).len() && leaves_of(p)[j] == q[i].1;
                assert(leaves_of(s)[j] == q[i].1);
            } else {
                let k = i - q.len();
                assert(all[i] == step[k]);
                match (lookup(t, n), s.last().1) {
                    (Some(StateValue::Tensor(a)), StateValue::Tensor(b)) => {
                        assert(leaves_of(s)[leaves_of(p).len() as int] == b);
                    },
                    (Some(StateValue::ChildStateDict(x)), StateValue::ChildStateDict(y)) => {
                        let j = choose|j: int| 0 <= j < last_part.len() && last_part[j] == step[k].1;
                        assert(leaves_of(s)[leaves_of(p).len() + j] == step[k].1);
                    },
                    _ => {},
                }
            }
        }
    }
}

/// Loading skips every entry of the source that finds no entry of its own kind under its name:
/// a source made only of such entries copies nothing.
pub proof fn lemma_mismatch_skipped<T>(
    t: Seq<(String, StateValue<T>)>,
    s: Seq<(String, StateValue<T>)>,
)
    requires
        forall|j: int| 0 <= j < s.len() ==> kind_mismatch(t, #[trigger] s[j]),
    ensures
        load_pairs_of(t, s).len() == 0,
    decreases s.len(),
{
    if s.len() > 0 {
        let p = s.drop_last();
        assert forall|j: int| 0 <= j < p.len() implies kind_mismatch(t, #[trigger] p[j]) by {
            assert(p[j] == s[j]);
        }
        lemma_mismatch_skipped(t, p);
        assert(kind_mismatch(t, s[s.len() - 1]));
    }
}

impl<T> StateDict<T> {
    /// An empty root.
    pub fn new() -> (r: Self)
        ensures
            r.data.name@ == Seq::<char>::empty(),
            r.data.parent.is_none(),
            r.data.parameters@.len() == 0,
    {
        StateDict {
            data: StateDictData { name: String::new(), parent: None, parameters: Vec::new() },
        }
    }

    /// The node itself.
    pub fn arc(&self) -> (r: &StateDictData<T>)
        ensures
            r == &self.data,
    {
        &self.data
    }

    /// Stores the leaf `cell` under `name`, replacing any entry of that name.
    pub fn insert(&mut self, name: String, cell: ValueCell<T>)
        ensures
            final(self).data.name == old(self).data.name,
            final(self).data.parent == old(self).data.parent,
            final(self).data.parameters@ == put_entry(
                old(self).data.parameters@,
                name,
                StateValue::Tensor(cell),
            ),
            old(self).data.wf() ==> final(self).data.wf(),
    {
        let ghost s = self.data.parameters@;
        let entry = (name, StateValue::Tensor(cell));
        match self.data.position(&entry.0) {
            Some(i) => {
                self.data.parameters.set(i, entry);
            },
            None => {
                self.data.parameters.push(entry);
            },
        }
        proof {
            lemma_find_entry(s, entry.0@);
            if old(self).data.wf() {
                lemma_links_put(s, entry.0, entry.1, old(self).data.path_view());
                lemma_put_entry_wf(s, entry.0, entry.1);
            }
        }
    }

    /// Attaches `child` under `module_name`, replacing any entry of that name, and sets the
    /// child's name and upward link to this node.
    pub fn append_child(&mut self, module_name: String, child: StateDict<T>)
        ensures
            appended(*old(self), *final(self), module_name, child),
            old(self).data.wf() && entries_wf(child.data.parameters@) ==> final(self).data.wf(),
    {
        let path = self.data.path();
        let below_path = join(&path, &module_name);
        let stored = StateDict {
            data: StateDictData {
                name: module_name.clone(),
                parent: Some(path),
                parameters: relinked(&child.data.parameters, &below_path),
            },
        };
        let ghost s = self.data.parameters@;
        let entry = (module_name, StateValue::ChildStateDict(stored));
        let ghost e = entry;
        match self.data.position(&entry.0) {
            Some(i) => {
                self.data.parameters.set(i, entry);
            },
            None => {
                self.data.parameters.push(entry);
            },
        }
        proof {
            lemma_find_entry(s, entry.0@);
            if old(self).data.wf() && entries_wf(child.data.parameters@) {
                lemma_links_put(s, entry.0, entry.1, old(self).data.path_view());
                if let StateValue::ChildStateDict(c) = e.1 {
                    lemma_same_entries_wf(c.data.parameters@, child.data.parameters@);
                }
                lemma_put_entry_wf(s, entry.0, entry.1);
            }
        }
    }
}

} // verus!
