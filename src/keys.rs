use vstd::prelude::*;

verus! {

/// Position of the first `.` in `k` at or after `i`, or `k.len()` when there is none.
pub open spec fn dot_from(k: Seq<char>, i: int) -> int
    decreases k.len() - i,
{
    if i < 0 || i >= k.len() {
        k.len() as int
    } else if k[i] == '.' {
        i
    } else {
        dot_from(k, i + 1)
    }
}

/// Position of the first `.` in `k`, or `k.len()` when `k` holds none.
pub open spec fn dot_index(k: Seq<char>) -> int {
    dot_from(k, 0)
}

/// Whether `k` holds a `.`, i.e. names something below a first segment.
pub open spec fn has_dot(k: Seq<char>) -> bool {
    dot_index(k) < k.len()
}

/// First segment of a dotted key: everything before its first `.`.
pub open spec fn head(k: Seq<char>) -> Seq<char> {
    k.subrange(0, dot_index(k))
}

/// What follows the first `.` of a dotted key.
pub open spec fn tail(k: Seq<char>) -> Seq<char> {
    if has_dot(k) {
        k.subrange(dot_index(k) + 1, k.len() as int)
    } else {
        Seq::empty()
    }
}

/// The key `g.r`.
pub open spec fn join_key(g: Seq<char>, r: Seq<char>) -> Seq<char> {
    g + seq!['.'] + r
}

/// Whether `p` is a prefix of `s`.
pub open spec fn starts_with(s: Seq<char>, p: Seq<char>) -> bool {
    p.len() <= s.len() && s.subrange(0, p.len() as int) == p
}

pub proof fn lemma_dot_from(k: Seq<char>, i: int)
    requires
        0 <= i <= k.len(),
    ensures
        i <= dot_from(k, i) <= k.len(),
        forall|j: int| i <= j < dot_from(k, i) ==> k[j] != '.',
        dot_from(k, i) < k.len() ==> k[dot_from(k, i)] == '.',
    decreases k.len() - i,
{
    if i < k.len() && k[i] != '.' {
        lemma_dot_from(k, i + 1);
    }
}

/// The first `.` of `k` is the first position that holds one.
pub proof fn lemma_dot_index(k: Seq<char>)
    ensures
        0 <= dot_index(k) <= k.len(),
        forall|j: int| 0 <= j < dot_index(k) ==> k[j] != '.',
        has_dot(k) ==> k[dot_index(k)] == '.',
        !has_dot(k) ==> head(k) == k,
        !has_dot(head(k)),
{
    lemma_dot_from(k, 0);
    let h = head(k);
    lemma_dot_from(h, 0);
    if dot_index(h) < h.len() {
        assert(h[dot_index(h)] == k[dot_index(h)]);
    }
    if !has_dot(k) {
        assert(head(k) =~= k);
    }
}

/// A dot-free position scan: `dot_from` skips positions that hold no `.`.
pub proof fn lemma_dot_from_skips(k: Seq<char>, i: int, d: int)
    requires
        0 <= i <= d <= k.len(),
        forall|j: int| i <= j < d ==> k[j] != '.',
        d < k.len() ==> k[d] == '.',
    ensures
        dot_from(k, i) == d,
    decreases d - i,
{
    if i < d {
        lemma_dot_from_skips(k, i + 1, d);
    }
}

/// Splitting `g.r` at its first `.` gives back `g` and `r`, when `g` holds no `.`.
pub proof fn lemma_split_join(g: Seq<char>, r: Seq<char>)
    requires
        !has_dot(g),
    ensures
        has_dot(join_key(g, r)),
        head(join_key(g, r)) == g,
        tail(join_key(g, r)) == r,
        dot_index(join_key(g, r)) == g.len(),
{
    let k = join_key(g, r);
    lemma_dot_index(g);
    assert forall|j: int| 0 <= j < g.len() implies k[j] != '.' by {
        assert(k[j] == g[j]);
    }
    assert(k[g.len() as int] == '.');
    lemma_dot_from_skips(k, 0, g.len() as int);
    assert(head(k) =~= g);
    assert(tail(k) =~= r);
}

/// A key that holds a `.` is its head, a `.` and its tail.
pub proof fn lemma_join_split(k: Seq<char>)
    requires
        has_dot(k),
    ensures
        k == join_key(head(k), tail(k)),
        !has_dot(head(k)),
{
    lemma_dot_index(k);
    assert(k =~= join_key(head(k), tail(k)));
}

/// `k` begins with `g.` exactly when it is `g.r` for the rest `r` of `k`.
pub proof fn lemma_starts_with_join(k: Seq<char>, g: Seq<char>)
    requires
        starts_with(k, g + seq!['.']),
    ensures
        k == join_key(g, k.subrange(g.len() + 1int, k.len() as int)),
{
    let p = g + seq!['.'];
    assert(k.subrange(0, p.len() as int) == p);
    assert forall|j: int| 0 <= j < k.len() implies k[j] == join_key(
        g,
        k.subrange(g.len() + 1int, k.len() as int),
    )[j] by {
        if j < p.len() {
            assert(k[j] == k.subrange(0, p.len() as int)[j]);
        }
    }
    assert(k =~= join_key(g, k.subrange(g.len() + 1int, k.len() as int)));
}

/// Finds the first `.` of `key`.
pub fn find_dot(key: &str) -> (r: usize)
    ensures
        r as int == dot_index(key@),
{
    let n = key.unicode_len();
    let mut i: usize = 0;
    while i < n && key.get_char(i) != '.'
        invariant
            n == key@.len(),
            0 <= i <= n,
            dot_index(key@) == dot_from(key@, i as int),
        decreases n - i,
    {
        i = i + 1;
    }
    i
}

/// Splits a key at its first `.`: the first segment, and what follows the `.` if there is one.
pub fn split_first(key: &str) -> (r: (String, Option<String>))
    ensures
        r.0@ == head(key@),
        has_dot(key@) <==> r.1.is_some(),
        r.1 matches Some(rest) ==> rest@ == tail(key@),
{
    proof {
        lemma_dot_index(key@);
    }
    let n = key.unicode_len();
    let d = find_dot(key);
    let first = key.substring_char(0, d).to_owned();
    if d < n {
        let rest = key.substring_char(d + 1, n).to_owned();
        (first, Some(rest))
    } else {
        (first, None)
    }
}

/// The key `g.r`.
pub fn join(g: &String, r: &String) -> (k: String)
    ensures
        k@ == join_key(g@, r@),
{
    let mut k = g.clone();
    proof {
        reveal_strlit(".");
    }
    k.append(".");
    k.append(r.as_str());
    k
}

} // verus!
