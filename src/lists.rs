use vstd::prelude::*;
use std::collections::HashMap;
use vstd::std_specs::iter::IteratorSpec;

verus! {

broadcast use vstd::std_specs::hash::group_hash_axioms;

/// The keys of a table, each once, in the order the table walks them.
pub fn key_list<V>(m: &HashMap<u32, V>) -> (r: Vec<u32>)
    ensures
        r@.to_set() == m@.dom(),
        r@.no_duplicates(),
{
    let ghost all = vstd::std_specs::hash::spec_keys_iter(m).remaining();
    let mut r: Vec<u32> = Vec::new();
    for k in it: m.keys()
        invariant
            it.seq() == all,
            all.unref().to_set() == m@.dom(),
            all.no_duplicates(),
            r@ == all.take(it.index() as int).unref(),
    {
        let ghost i = it.index();
        assert(k == all[i as int]);
        r.push(*k);
        assert(all.take(i + 1).unref() =~= all.take(i as int).unref().push(*k));
    }
    assert(all.take(all.len() as int) == all);
    r
}

/// Whether `id` occurs in `v`.
pub fn contains_id(v: &Vec<u32>, id: u32) -> (r: bool)
    ensures
        r == v@.contains(id),
{
    let mut i: usize = 0;
    while i < v.len()
        invariant
            i <= v.len(),
            forall|j: int| 0 <= j < i ==> v@[j] != id,
        decreases v.len() - i,
    {
        if v[i] == id {
            return true;
        }
        i = i + 1;
    }
    false
}

/// `v` followed by `id`.
pub fn with_last(v: &Vec<u32>, id: u32) -> (r: Vec<u32>)
    ensures
        r@ == v@.push(id),
{
    let mut r = v.clone();
    r.push(id);
    r
}

/// `v` in reverse order.
pub fn reversed(v: &Vec<u32>) -> (r: Vec<u32>)
    ensures
        r@ == v@.reverse(),
{
    let mut r: Vec<u32> = Vec::new();
    let mut i: usize = v.len();
    while i > 0
        invariant
            i <= v.len(),
            r@.len() == v.len() - i,
            forall|j: int| 0 <= j < r@.len() ==> r@[j] == v@[v.len() - 1 - j],
        decreases i,
    {
        i = i - 1;
        r.push(v[i]);
    }
    assert(r@ =~= v@.reverse());
    r
}

/// `v` without its first element.
pub fn without_first(v: &Vec<u32>) -> (r: Vec<u32>)
    requires
        v@.len() > 0,
    ensures
        r@ == v@.drop_first(),
{
    let mut r = v.clone();
    r.remove(0);
    r
}

/// Cutting a sequence one element later adds just that element.
pub proof fn lemma_take_one_more_contains(s: Seq<u32>, i: int)
    requires
        0 <= i < s.len(),
    ensures
        forall|x: u32| s.take(i + 1).contains(x) <==> (s.take(i).contains(x) || x == s[i]),
{
    let t0 = s.take(i);
    let t1 = s.take(i + 1);
    assert forall|x: u32| t1.contains(x) <==> (t0.contains(x) || x == s[i]) by {
        if t1.contains(x) && x != s[i] {
            let j = choose|j: int| 0 <= j < t1.len() && #[trigger] t1[j] == x;
            assert(t0[j] == x);
        }
        if x == s[i] {
            assert(t1[i] == x);
        }
        if t0.contains(x) {
            let j = choose|j: int| 0 <= j < t0.len() && #[trigger] t0[j] == x;
            assert(t1[j] == x);
        }
    }
}

/// A list without repeats that holds every value below `c` has at least `c`
/// elements.
proof fn lemma_holds_all_below(s: Seq<u32>, c: int)
    requires
        s.no_duplicates(),
        0 <= c <= u32::MAX + 1,
        forall|x: u32| x < c ==> s.contains(x),
    ensures
        c <= s.len(),
{
    broadcast use vstd::seq_lib::seq_to_set_is_finite;
    let t = Seq::new(c as nat, |i: int| i as u32);
    assert(t.no_duplicates());
    assert(t.to_set().subset_of(s.to_set())) by {
        assert forall|x: u32| t.to_set().contains(x) implies s.to_set().contains(x) by {
            let i = choose|i: int| 0 <= i < t.len() && #[trigger] t[i] == x;
            assert(s.contains(x));
        }
    }
    t.unique_seq_to_set();
    s.unique_seq_to_set();
    vstd::set_lib::lemma_len_subset(t.to_set(), s.to_set());
}

/// `draw` where it is not in `taken`; otherwise the least value not in it.
pub fn fresh_id(taken: &Vec<u32>, draw: u32) -> (r: u32)
    requires
        taken@.no_duplicates(),
        taken@.len() < u32::MAX,
    ensures
        !taken@.contains(r),
        !taken@.contains(draw) ==> r == draw,
{
    if !contains_id(taken, draw) {
        return draw;
    }
    let mut c: u32 = 0;
    while contains_id(taken, c)
        invariant
            forall|x: u32| x < c ==> taken@.contains(x),
            c <= taken@.len(),
            taken@.no_duplicates(),
            taken@.len() < u32::MAX,
        decreases taken@.len() - c,
    {
        proof {
            lemma_holds_all_below(taken@, c + 1);
        }
        c = c + 1;
    }
    c
}

} // verus!
