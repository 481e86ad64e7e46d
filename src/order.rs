use vstd::prelude::*;

verus! {

/// Length of the common run of `a` and `b` from position `i` on: the first position at or
/// after `i` where they differ or one of them ends.
pub open spec fn common_from(a: Seq<char>, b: Seq<char>, i: int) -> int
    decreases a.len() - i,
{
    if i < 0 || i >= a.len() || i >= b.len() || a[i] != b[i] {
        i
    } else {
        common_from(a, b, i + 1)
    }
}

/// `a` comes before `b` in the lexicographic order of characters (the order of `str`).
pub open spec fn name_less(a: Seq<char>, b: Seq<char>) -> bool {
    let i = common_from(a, b, 0);
    if i < a.len() && i < b.len() {
        (a[i] as u32) < (b[i] as u32)
    } else {
        a.len() < b.len()
    }
}

pub proof fn lemma_common_from(a: Seq<char>, b: Seq<char>, i: int)
    requires
        0 <= i <= a.len(),
        i <= b.len(),
    ensures
        i <= common_from(a, b, i) <= a.len(),
        common_from(a, b, i) <= b.len(),
        forall|j: int| i <= j < common_from(a, b, i) ==> a[j] == b[j],
        common_from(a, b, i) < a.len() && common_from(a, b, i) < b.len() ==> a[common_from(
            a,
            b,
            i,
        )] != b[common_from(a, b, i)],
    decreases a.len() - i,
{
    if i < a.len() && i < b.len() && a[i] == b[i] {
        lemma_common_from(a, b, i + 1);
    }
}

/// The first position where `a` and `b` differ or one ends is the one `common_from` gives.
pub proof fn lemma_common_at(a: Seq<char>, b: Seq<char>, i: int, d: int)
    requires
        0 <= i <= d <= a.len(),
        d <= b.len(),
        forall|j: int| i <= j < d ==> a[j] == b[j],
        d < a.len() && d < b.len() ==> a[d] != b[d],
    ensures
        common_from(a, b, i) == d,
    decreases d - i,
{
    if i < d {
        lemma_common_at(a, b, i + 1, d);
    }
}

/// The order of names is transitive.
pub proof fn lemma_name_less_transitive(a: Seq<char>, b: Seq<char>, c: Seq<char>)
    requires
        name_less(a, b),
        name_less(b, c),
    ensures
        name_less(a, c),
{
    lemma_common_from(a, b, 0);
    lemma_common_from(b, c, 0);
    let i = common_from(a, b, 0);
    let j = common_from(b, c, 0);
    if i < j {
        if i < a.len() {
            assert(b[i] == c[i]);
            lemma_common_at(a, c, 0, i);
        } else {
            lemma_common_at(a, c, 0, i);
        }
    } else if j < i {
        assert(a[j] == b[j]);
        lemma_common_at(a, c, 0, j);
    } else {
        lemma_common_at(a, c, 0, i);
    }
}

/// Whether `a` comes before `b`.
pub fn str_less(a: &str, b: &str) -> (r: bool)
    ensures
        r == name_less(a@, b@),
{
    let n = a.unicode_len();
    let m = b.unicode_len();
    let mut i: usize = 0;
    while i < n && i < m && a.get_char(i) == b.get_char(i)
        invariant
            n == a@.len(),
            m == b@.len(),
            0 <= i <= n,
            i <= m,
            common_from(a@, b@, 0) == common_from(a@, b@, i as int),
        decreases n - i,
    {
        i = i + 1;
    }
    if i < n && i < m {
        (a.get_char(i) as u32) < (b.get_char(i) as u32)
    } else {
        n < m
    }
}

/// `order` lists each of `0..n` once.
pub open spec fn is_permutation(order: Seq<usize>, n: int) -> bool {
    &&& order.len() == n
    &&& forall|x: int| 0 <= x < order.len() ==> (#[trigger] order[x]) < n
    &&& forall|x: int, y: int| 0 <= x < y < order.len() ==> #[trigger] order[x] != #[trigger] order[y]
}

/// The names listed by `order` never step back.
pub open spec fn is_sorted_by(order: Seq<usize>, names: Seq<Seq<char>>) -> bool {
    forall|x: int, y: int|
        0 <= x < y < order.len() ==> !name_less(
            #[trigger] names[order[y] as int],
            #[trigger] names[order[x] as int],
        )
}

/// The positions of `names` in the order of the names.
pub fn sorted_order(names: &Vec<String>) -> (r: Vec<usize>)
    ensures
        is_permutation(r@, names@.len() as int),
        is_sorted_by(r@, names@.map_values(|s: String| s@)),
{
    let ghost view = names@.map_values(|s: String| s@);
    let mut order: Vec<usize> = Vec::new();
    let mut i: usize = 0;
    while i < names.len()
        invariant
            i <= names@.len(),
            view == names@.map_values(|s: String| s@),
            is_permutation(order@, i as int),
            is_sorted_by(order@, view),
        decreases names@.len() - i,
    {
        let mut p: usize = 0;
        while p < order.len() && !str_less(names[i].as_str(), names[order[p]].as_str())
            invariant
                p <= order@.len(),
                i < names@.len(),
                view == names@.map_values(|s: String| s@),
                is_permutation(order@, i as int),
                forall|q: int| 0 <= q < p ==> !name_less(view[i as int], #[trigger] view[order@[q] as int]),
            decreases order@.len() - p,
        {
            p = p + 1;
        }
        let ghost old_order = order@;
        proof {
            if p < old_order.len() {
                assert(name_less(view[i as int], view[old_order[p as int] as int]));
            }
        }
        order.insert(p, i);
        proof {
            let o = order@;
            assert(o == old_order.insert(p as int, i));
            assert forall|x: int| 0 <= x < o.len() implies (#[trigger] o[x]) < i + 1 by {
                if x < p {
                    assert(o[x] == old_order[x]);
                } else if x > p {
                    assert(o[x] == old_order[x - 1]);
                }
            }
            assert forall|x: int, y: int| 0 <= x < y < o.len() implies #[trigger] o[x]
                != #[trigger] o[y] by {
                if x != p && y != p {
                    let x0 = if x < p { x } else { x - 1 };
                    let y0 = if y < p { y } else { y - 1 };
                    assert(o[x] == old_order[x0] && o[y] == old_order[y0]);
                } else if x == p {
                    assert(o[y] == old_order[y - 1]);
                } else {
                    let x0 = if x < p { x } else { x - 1 };
                    assert(o[x] == old_order[x0]);
                }
            }
            assert forall|x: int, y: int| 0 <= x < y < o.len() implies !name_less(
                #[trigger] view[o[y] as int],
                #[trigger] view[o[x] as int],
            ) by {
                if x != p && y != p {
                    let x0 = if x < p { x } else { x - 1 };
                    let y0 = if y < p { y } else { y - 1 };
                    assert(o[x] == old_order[x0] && o[y] == old_order[y0]);
                } else if x == p {
                    let y0 = y - 1;
                    assert(o[y] == old_order[y0]);
                    if name_less(view[o[y] as int], view[i as int]) {
                        assert(p < old_order.len());
                        assert(!name_less(view[old_order[y0] as int], view[old_order[p as int] as int]))
                            by {
                            if y0 > p {
                            }
                        }
                        lemma_name_less_transitive(
                            view[o[y] as int],
                            view[i as int],
                            view[old_order[p as int] as int],
                        );
                    }
                } else {
                    assert(o[x] == old_order[x]);
                }
            }
        }
        i = i + 1;
    }
    order
}

} // verus!
