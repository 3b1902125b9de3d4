use vstd::prelude::*;
use crate::index::NodeIndex;

verus! {

/// `s` with every occurrence of `x` taken out, the rest in order.
pub open spec fn without(s: Seq<NodeIndex>, x: NodeIndex) -> Seq<NodeIndex>
    decreases s.len(),
{
    if s.len() == 0 {
        s
    } else if s.last() == x {
        without(s.drop_last(), x)
    } else {
        without(s.drop_last(), x).push(s.last())
    }
}

/// The number of occurrences of `x` in `s`.
pub open spec fn count_of(s: Seq<NodeIndex>, x: NodeIndex) -> nat
    decreases s.len(),
{
    if s.len() == 0 {
        0
    } else if s.last() == x {
        count_of(s.drop_last(), x) + 1
    } else {
        count_of(s.drop_last(), x)
    }
}

/// Whether `x` occurs in `v`.
pub fn vec_contains(v: &Vec<NodeIndex>, x: NodeIndex) -> (r: bool)
    ensures
        r == v@.contains(x),
{
    let mut i: usize = 0;
    while i < v.len()
        invariant
            i <= v.len(),
            forall|j: int| 0 <= j < i ==> v@[j] != x,
        decreases v.len() - i,
    {
        if v[i] == x {
            return true;
        }
        i = i + 1;
    }
    false
}

/// A copy of `v`.
pub fn copy_nodes(v: &Vec<NodeIndex>) -> (r: Vec<NodeIndex>)
    ensures
        r@ == v@,
{
    let mut r: Vec<NodeIndex> = Vec::new();
    let mut i: usize = 0;
    while i < v.len()
        invariant
            i <= v.len(),
            r@ == v@.subrange(0, i as int),
        decreases v.len() - i,
    {
        r.push(v[i]);
        i = i + 1;
        proof {
            assert(r@ =~= v@.subrange(0, i as int));
        }
    }
    proof {
        assert(r@ =~= v@);
    }
    r
}

/// Whether `x` occurs in `v`.
pub fn slots_contain(v: &Vec<usize>, x: usize) -> (r: bool)
    ensures
        r == v@.contains(x),
{
    let mut i: usize = 0;
    while i < v.len()
        invariant
            i <= v.len(),
            forall|j: int| 0 <= j < i ==> v@[j] != x,
        decreases v.len() - i,
    {
        if v[i] == x {
            return true;
        }
        i = i + 1;
    }
    false
}

/// A position of `x` in `s` (the only one when `s` lists nothing twice).
pub open spec fn index_in(s: Seq<NodeIndex>, x: NodeIndex) -> int {
    choose|p: int| 0 <= p < s.len() && s[p] == x
}

/// `s` with `x` taken out by moving the last entry into its place, as
/// `Vec::swap_remove` does; `s` itself if `x` does not occur.
pub open spec fn swap_out(s: Seq<NodeIndex>, x: NodeIndex) -> Seq<NodeIndex> {
    if s.contains(x) {
        s.update(index_in(s, x), s.last()).drop_last()
    } else {
        s
    }
}

/// Taking a listed node out of a list without repetitions leaves the other
/// nodes, each once.
pub proof fn lemma_swap_out(s: Seq<NodeIndex>, x: NodeIndex)
    requires
        s.no_duplicates(),
    ensures
        swap_out(s, x).no_duplicates(),
        s.contains(x) ==> swap_out(s, x).len() == s.len() - 1,
        forall|y: NodeIndex| swap_out(s, x).contains(y) <==> (s.contains(y) && y != x),
{
    if s.contains(x) {
        let p = index_in(s, x);
        let r = swap_out(s, x);
        let n = s.len() - 1;
        assert forall|i: int, j: int| 0 <= i < j < r.len() implies r[i] != r[j] by {
            if i == p {
                assert(r[i] == s[n]);
            } else if j == p {
                assert(r[j] == s[n]);
            }
        }
        assert forall|y: NodeIndex| r.contains(y) <==> (s.contains(y) && y != x) by {
            if r.contains(y) {
                let i = choose|i: int| 0 <= i < r.len() && r[i] == y;
                if i == p {
                    assert(s[n] == y);
                    assert(n != p);
                } else {
                    assert(s[i] == y);
                }
            }
            if s.contains(y) && y != x {
                let i = choose|i: int| 0 <= i < s.len() && s[i] == y;
                if i == n {
                    if p < n {
                        assert(r[p] == y);
                    }
                } else {
                    assert(i != p);
                    assert(r[i] == y);
                }
            }
        }
    }
}

/// The first position of `x` in `v`, if `x` occurs.
pub fn position(v: &Vec<NodeIndex>, x: NodeIndex) -> (r: Option<usize>)
    ensures
        match r {
            Some(p) => p < v.len() && v@[p as int] == x && forall|q: int| 0 <= q < p ==> v@[q] != x,
            None => !v@.contains(x),
        },
{
    let mut i: usize = 0;
    while i < v.len()
        invariant
            i <= v.len(),
            forall|j: int| 0 <= j < i ==> v@[j] != x,
        decreases v.len() - i,
    {
        if v[i] == x {
            return Some(i);
        }
        i = i + 1;
    }
    None
}

/// A list of distinct slot numbers below `n` that misses the slot `x` below
/// `n` has fewer than `n` entries.
pub proof fn lemma_distinct_slots_below(s: Seq<usize>, n: int, x: usize)
    requires
        s.no_duplicates(),
        forall|k: int| 0 <= k < s.len() ==> (#[trigger] s[k]) < n,
        0 <= x < n,
        !s.contains(x),
    ensures
        s.len() < n,
{
    let t = s.map_values(|v: usize| v as int);
    assert forall|i: int, j: int| 0 <= i < t.len() && 0 <= j < t.len() && i != j implies t[i] != t[j] by {
        assert(s[i] != s[j]);
    }
    t.unique_seq_to_set();
    let range = vstd::set_lib::set_int_range(0, n).remove(x as int);
    assert forall|v: int| t.to_set().contains(v) implies range.contains(v) by {
        let k = choose|k: int| 0 <= k < t.len() && t[k] == v;
        assert(s[k] < n);
        if v == x as int {
            assert(s[k] == x);
        }
    }
    vstd::set_lib::lemma_int_range(0, n);
    vstd::set_lib::lemma_len_subset(t.to_set(), range);
}

/// Counting after an entry is appended.
pub proof fn lemma_count_push(s: Seq<NodeIndex>, z: NodeIndex, y: NodeIndex)
    ensures
        count_of(s.push(z), y) == count_of(s, y) + if z == y { 1nat } else { 0nat },
{
    assert(s.push(z).drop_last() =~= s);
}

/// Appending an entry that does not occur keeps a list free of repetitions.
pub proof fn lemma_push_no_duplicates(s: Seq<NodeIndex>, z: NodeIndex)
    requires
        s.no_duplicates(),
        !s.contains(z),
    ensures
        s.push(z).no_duplicates(),
{
    let t = s.push(z);
    assert forall|i: int, j: int| 0 <= i < j < t.len() implies t[i] != t[j] by {
        if j == s.len() {
            assert(t[i] == s[i]);
        } else {
            assert(t[i] == s[i] && t[j] == s[j]);
        }
    }
}

/// Counting an entry after `x` is taken out.
pub proof fn lemma_without_count(s: Seq<NodeIndex>, x: NodeIndex, y: NodeIndex)
    ensures
        count_of(without(s, x), y) == if x == y { 0 } else { count_of(s, y) },
    decreases s.len(),
{
    if s.len() > 0 {
        let p = s.drop_last();
        lemma_without_count(p, x, y);
        lemma_count_push(without(p, x), s.last(), y);
    }
}

/// What is left after taking out `x` is what was there, less `x`.
pub proof fn lemma_without_contains(s: Seq<NodeIndex>, x: NodeIndex)
    ensures
        forall|y: NodeIndex|
            #![trigger without(s, x).contains(y)]
            #![trigger s.contains(y)]
            without(s, x).contains(y) <==> (s.contains(y) && y != x),
        s.no_duplicates() ==> without(s, x).no_duplicates(),
        without(s, x).len() <= s.len(),
    decreases s.len(),
{
    if s.len() > 0 {
        let p = s.drop_last();
        lemma_without_contains(p, x);
        assert forall|y: NodeIndex| without(s, x).contains(y) <==> (s.contains(y) && y != x) by {
            if s.contains(y) && y != x {
                let k = choose|k: int| 0 <= k < s.len() && s[k] == y;
                if k < s.len() - 1 {
                    assert(p[k] == y);
                    assert(p.contains(y));
                    assert(without(p, x).contains(y));
                    let w = choose|w: int| 0 <= w < without(p, x).len() && without(p, x)[w] == y;
                    if s.last() != x {
                        assert(without(s, x)[w] == y);
                    }
                } else {
                    assert(without(s, x)[without(s, x).len() - 1] == y);
                }
            }
            if without(s, x).contains(y) {
                let w = choose|w: int| 0 <= w < without(s, x).len() && without(s, x)[w] == y;
                if s.last() != x && w == without(s, x).len() - 1 {
                    assert(s[s.len() - 1] == y);
                } else {
                    assert(without(p, x)[w] == y);
                    assert(without(p, x).contains(y));
                    assert(p.contains(y));
                    let k = choose|k: int| 0 <= k < p.len() && p[k] == y;
                    assert(s[k] == y);
                }
            }
        }
        if s.no_duplicates() {
            assert(p.no_duplicates()) by {
                assert forall|i: int, j: int| 0 <= i < j < p.len() implies p[i] != p[j] by {
                    assert(s[i] != s[j]);
                }
            }
            if s.last() != x {
                let w = without(p, x);
                assert(!w.contains(s.last())) by {
                    if w.contains(s.last()) {
                        let k = choose|k: int| 0 <= k < p.len() && p[k] == s.last();
                        assert(s[k] == s[s.len() - 1]);
                    }
                }
                assert forall|i: int, j: int| 0 <= i < j < w.len() + 1 implies w.push(s.last())[i] != w.push(s.last())[j] by {
                    if j == w.len() {
                        assert(w.push(s.last())[i] == w[i]);
                    }
                }
            }
        }
    }
}

/// An entry occurs exactly when it is counted.
pub proof fn lemma_count_contains(s: Seq<NodeIndex>, y: NodeIndex)
    ensures
        (count_of(s, y) > 0) == s.contains(y),
        count_of(s, y) <= s.len(),
        s.no_duplicates() ==> count_of(s, y) <= 1,
    decreases s.len(),
{
    if s.len() > 0 {
        let p = s.drop_last();
        lemma_count_contains(p, y);
        if s.contains(y) && s.last() != y {
            let k = choose|k: int| 0 <= k < s.len() && s[k] == y;
            assert(p[k] == y);
        }
        if p.contains(y) {
            let k = choose|k: int| 0 <= k < p.len() && p[k] == y;
            assert(s[k] == y);
        }
        if s.no_duplicates() {
            assert(p.no_duplicates()) by {
                assert forall|i: int, j: int| 0 <= i < j < p.len() implies p[i] != p[j] by {
                    assert(s[i] != s[j]);
                }
            }
            if s.last() == y && p.contains(y) {
                let k = choose|k: int| 0 <= k < p.len() && p[k] == y;
                assert(s[k] == s[s.len() - 1]);
            }
        }
    }
}

/// `v` without the entries equal to `x`, kept in order, and the number of
/// entries taken out.
pub fn remove_all(v: &Vec<NodeIndex>, x: NodeIndex) -> (r: (Vec<NodeIndex>, usize))
    ensures
        r.0@ == without(v@, x),
        r.1 == count_of(v@, x),
{
    let mut kept: Vec<NodeIndex> = Vec::new();
    let mut n: usize = 0;
    let mut i: usize = 0;
    while i < v.len()
        invariant
            i <= v.len(),
            kept@ == without(v@.subrange(0, i as int), x),
            n == count_of(v@.subrange(0, i as int), x),
            n <= i,
        decreases v.len() - i,
    {
        proof {
            assert(v@.subrange(0, i + 1).drop_last() =~= v@.subrange(0, i as int));
        }
        if v[i] != x {
            kept.push(v[i]);
        } else {
            n = n + 1;
        }
        i = i + 1;
    }
    proof {
        assert(v@.subrange(0, i as int) =~= v@);
    }
    (kept, n)
}

/// The number of entries of `v` equal to `x`.
pub fn count_in(v: &Vec<NodeIndex>, x: NodeIndex) -> (r: usize)
    ensures
        r == count_of(v@, x),
{
    let mut n: usize = 0;
    let mut i: usize = 0;
    while i < v.len()
        invariant
            i <= v.len(),
            n == count_of(v@.subrange(0, i as int), x),
            n <= i,
        decreases v.len() - i,
    {
        proof {
            assert(v@.subrange(0, i + 1).drop_last() =~= v@.subrange(0, i as int));
        }
        if v[i] == x {
            n = n + 1;
        }
        i = i + 1;
    }
    proof {
        assert(v@.subrange(0, i as int) =~= v@);
    }
    n
}

/// The number of slots below `n` not listed in `free`.
pub open spec fn slots_not_in(free: Seq<usize>, n: int) -> nat
    decreases n,
{
    if n <= 0 {
        0
    } else {
        slots_not_in(free, n - 1) + if free.contains((n - 1) as usize) { 0nat } else { 1nat }
    }
}

/// The number of entries of `s` below `n`.
pub open spec fn entries_below(s: Seq<usize>, n: int) -> nat
    decreases s.len(),
{
    if s.len() == 0 {
        0
    } else {
        entries_below(s.drop_last(), n) + if s.last() < n { 1nat } else { 0nat }
    }
}

proof fn lemma_entries_below_step(s: Seq<usize>, n: int)
    requires
        s.no_duplicates(),
        0 <= n < usize::MAX,
    ensures
        entries_below(s, n + 1) == entries_below(s, n) + if s.contains(n as usize) { 1nat } else { 0nat },
    decreases s.len(),
{
    if s.len() > 0 {
        let p = s.drop_last();
        assert(p.no_duplicates()) by {
            assert forall|i: int, j: int| 0 <= i < j < p.len() implies p[i] != p[j] by {
                assert(s[i] != s[j]);
            }
        }
        lemma_entries_below_step(p, n);
        if p.contains(n as usize) {
            let k = choose|k: int| 0 <= k < p.len() && p[k] == n as usize;
            assert(s[k] == p[k]);
            if s.last() == n as usize {
                assert(s[k] == s[s.len() - 1]);
            }
        }
        if s.contains(n as usize) && s.last() != n as usize {
            let k = choose|k: int| 0 <= k < s.len() && s[k] == n as usize;
            assert(p[k] == n as usize);
        }
    }
}

proof fn lemma_entries_below_all(s: Seq<usize>, n: int)
    requires
        forall|k: int| 0 <= k < s.len() ==> (#[trigger] s[k]) < n,
    ensures
        entries_below(s, n) == s.len(),
    decreases s.len(),
{
    if s.len() > 0 {
        lemma_entries_below_all(s.drop_last(), n);
    }
}

proof fn lemma_slots_not_in_below(free: Seq<usize>, n: int)
    requires
        free.no_duplicates(),
        0 <= n <= usize::MAX,
    ensures
        slots_not_in(free, n) + entries_below(free, n) == n,
    decreases n,
{
    if n == 0 {
        lemma_entries_below_zero(free);
    } else {
        lemma_slots_not_in_below(free, n - 1);
        lemma_entries_below_step(free, n - 1);
    }
}

proof fn lemma_entries_below_zero(s: Seq<usize>)
    ensures
        entries_below(s, 0) == 0,
    decreases s.len(),
{
    if s.len() > 0 {
        lemma_entries_below_zero(s.drop_last());
    }
}

/// When the free slots are distinct slots below `n`, the other slots
/// below `n` number `n` less the free ones.
pub proof fn lemma_slots_not_in(free: Seq<usize>, n: int)
    requires
        free.no_duplicates(),
        0 <= n <= usize::MAX,
        forall|k: int| 0 <= k < free.len() ==> (#[trigger] free[k]) < n,
    ensures
        slots_not_in(free, n) == n - free.len(),
{
    lemma_slots_not_in_below(free, n);
    lemma_entries_below_all(free, n);
}

} // verus!
