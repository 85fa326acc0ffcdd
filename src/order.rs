//! Byte-wise ordering of entry names, and the stable sort of siblings by name.
use vstd::prelude::*;

verus! {

/// `a` sorts strictly before `b` when compared from position `i` on, character
/// by character by code point; a proper prefix sorts first. On UTF-8 text this
/// is the byte-wise order.
pub open spec fn lt_from(a: Seq<char>, b: Seq<char>, i: int) -> bool
    decreases a.len() - i,
{
    if i < 0 || i >= b.len() {
        false
    } else if i >= a.len() {
        true
    } else if a[i] as u32 != b[i] as u32 {
        (a[i] as u32) < (b[i] as u32)
    } else {
        lt_from(a, b, i + 1)
    }
}

/// `a` sorts strictly before `b`.
pub open spec fn name_lt(a: Seq<char>, b: Seq<char>) -> bool {
    lt_from(a, b, 0)
}

/// Whether `a` sorts strictly before `b`, byte-wise.
pub fn name_less(a: &str, b: &str) -> (r: bool)
    ensures
        r == name_lt(a@, b@),
{
    let na = a.unicode_len();
    let nb = b.unicode_len();
    let mut i: usize = 0;
    while i < na && i < nb
        invariant
            na == a@.len(),
            nb == b@.len(),
            0 <= i <= na,
            i <= nb,
            lt_from(a@, b@, 0) == lt_from(a@, b@, i as int),
        decreases na - i,
    {
        let ca = a.get_char(i);
        let cb = b.get_char(i);
        if ca as u32 != cb as u32 {
            return (ca as u32) < (cb as u32);
        }
        i = i + 1;
    }
    i < nb
}

/// No string sorts before itself, and two strings are not each before the other.
pub proof fn lemma_lt_asymmetric(a: Seq<char>, b: Seq<char>, i: int)
    requires
        0 <= i,
    ensures
        !lt_from(a, a, i),
        lt_from(a, b, i) ==> !lt_from(b, a, i),
    decreases a.len() - i,
{
    if i < a.len() {
        lemma_lt_asymmetric(a, b, i + 1);
    }
}

/// Where `a` sorts before `c`, any `b` sorts after `a` or before `c`.
pub proof fn lemma_lt_split(a: Seq<char>, b: Seq<char>, c: Seq<char>, i: int)
    requires
        0 <= i,
    ensures
        lt_from(a, c, i) ==> lt_from(a, b, i) || lt_from(b, c, i),
    decreases a.len() - i,
{
    if i < a.len() {
        lemma_lt_split(a, b, c, i + 1);
    }
}

/// Two strings neither of which sorts before the other are equal from `i` on.
pub proof fn lemma_lt_total(a: Seq<char>, b: Seq<char>, i: int)
    requires
        0 <= i <= a.len(),
        i <= b.len(),
        !lt_from(a, b, i),
        !lt_from(b, a, i),
    ensures
        a.subrange(i, a.len() as int) == b.subrange(i, b.len() as int),
    decreases a.len() - i,
{
    if i < a.len() {
        lemma_lt_total(a, b, i + 1);
        vstd::utf8::char_u32_cast(a[i], a[i] as u32);
        vstd::utf8::char_u32_cast(b[i], b[i] as u32);
        assert(a[i] == b[i]);
        assert(a.subrange(i, a.len() as int) =~= seq![a[i]] + a.subrange(i + 1, a.len() as int));
        assert(b.subrange(i, b.len() as int) =~= seq![b[i]] + b.subrange(i + 1, b.len() as int));
    } else {
        assert(a.subrange(i, a.len() as int) =~= b.subrange(i, b.len() as int));
    }
}

/// Distinct strings: one of them sorts before the other.
pub proof fn lemma_lt_distinct(a: Seq<char>, b: Seq<char>)
    requires
        a != b,
    ensures
        name_lt(a, b) || name_lt(b, a),
{
    if !name_lt(a, b) && !name_lt(b, a) {
        lemma_lt_total(a, b, 0);
        assert(a =~= a.subrange(0, a.len() as int));
        assert(b =~= b.subrange(0, b.len() as int));
    }
}

/// `s` with index `x` inserted after every index whose name does not sort
/// after `x`'s name.
pub open spec fn insert_by_name(names: Seq<Seq<char>>, s: Seq<usize>, x: usize) -> Seq<usize>
    decreases s.len(),
{
    if s.len() == 0 {
        seq![x]
    } else if name_lt(names[x as int], names[s.last() as int]) {
        insert_by_name(names, s.drop_last(), x).push(s.last())
    } else {
        s.push(x)
    }
}

/// The indices `0..n` ordered by name; equal names keep their relative order.
pub open spec fn sorted_order(names: Seq<Seq<char>>, n: nat) -> Seq<usize>
    decreases n,
{
    if n == 0 {
        Seq::empty()
    } else {
        insert_by_name(names, sorted_order(names, (n - 1) as nat), (n - 1) as usize)
    }
}

/// No index of `s` has a name that sorts before the name of an earlier index.
pub open spec fn is_sorted_by_name(names: Seq<Seq<char>>, s: Seq<usize>) -> bool {
    forall|j: int, k: int|
        0 <= j < k < s.len() ==> !name_lt(#[trigger] names[s[k] as int], #[trigger] names[s[j] as int])
}

proof fn lemma_insert_contents(names: Seq<Seq<char>>, s: Seq<usize>, x: usize)
    ensures
        insert_by_name(names, s, x).len() == s.len() + 1,
        insert_by_name(names, s, x).to_multiset() =~= s.to_multiset().insert(x),
    decreases s.len(),
{
    broadcast use vstd::seq_lib::group_to_multiset_ensures;
    if s.len() > 0 {
        let l = s.last();
        if name_lt(names[x as int], names[l as int]) {
            lemma_insert_contents(names, s.drop_last(), x);
            assert(s =~= s.drop_last().push(l));
        }
    }
}

proof fn lemma_insert_sorted(names: Seq<Seq<char>>, s: Seq<usize>, x: usize)
    requires
        is_sorted_by_name(names, s),
    ensures
        is_sorted_by_name(names, insert_by_name(names, s, x)),
    decreases s.len(),
{
    if s.len() > 0 {
        let l = s.last();
        if name_lt(names[x as int], names[l as int]) {
            let p = s.drop_last();
            lemma_insert_sorted(names, p, x);
            lemma_insert_sorted_contents(names, p, x);
            let q = insert_by_name(names, p, x);
            assert forall|k: int| 0 <= k < q.len() implies !name_lt(names[l as int], #[trigger] names[q[k] as int]) by {
                if q[k] == x {
                    lemma_lt_asymmetric(names[x as int], names[l as int], 0);
                } else {
                    let m = choose|m: int| 0 <= m < p.len() && p[m] == q[k];
                    assert(s[m] == p[m]);
                    assert(s[s.len() - 1] == l);
                }
            }
        } else {
            assert forall|k: int| 0 <= k < s.len() implies !name_lt(names[x as int], #[trigger] names[s[k] as int]) by {
                lemma_lt_split(names[x as int], names[l as int], names[s[k] as int], 0);
            }
        }
    }
}

proof fn lemma_insert_distinct(names: Seq<Seq<char>>, s: Seq<usize>, x: usize)
    requires
        s.no_duplicates(),
        !s.contains(x),
    ensures
        insert_by_name(names, s, x).no_duplicates(),
    decreases s.len(),
{
    if s.len() > 0 {
        let l = s.last();
        if name_lt(names[x as int], names[l as int]) {
            let p = s.drop_last();
            assert(p.no_duplicates()) by {
                assert forall|a: int, b: int| 0 <= a < b < p.len() implies p[a] != p[b] by {
                    assert(p[a] == s[a] && p[b] == s[b]);
                }
            }
            assert(!p.contains(x)) by {
                if p.contains(x) {
                    let m = choose|m: int| 0 <= m < p.len() && p[m] == x;
                    assert(s[m] == x);
                }
            }
            lemma_insert_distinct(names, p, x);
            lemma_insert_sorted_contents(names, p, x);
            let q = insert_by_name(names, p, x);
            assert forall|a: int, b: int| 0 <= a < b < q.len() + 1 implies q.push(l)[a] != q.push(l)[b] by {
                if b == q.len() {
                    if q[a] == x {
                        assert(s[s.len() - 1] == l);
                    } else {
                        let m = choose|m: int| 0 <= m < p.len() && p[m] == q[a];
                        assert(s[m] == p[m]);
                        assert(s[s.len() - 1] == l);
                    }
                }
            }
        } else {
            assert forall|a: int, b: int| 0 <= a < b < s.len() + 1 implies s.push(x)[a] != s.push(x)[b] by {
                if b == s.len() {
                    assert(s[a] == s.push(x)[a]);
                }
            }
        }
    }
}

proof fn lemma_insert_sorted_contents(names: Seq<Seq<char>>, s: Seq<usize>, x: usize)
    ensures
        forall|k: int|
            0 <= k < insert_by_name(names, s, x).len() ==> (#[trigger] insert_by_name(names, s, x)[k] == x
                || s.contains(insert_by_name(names, s, x)[k])),
    decreases s.len(),
{
    if s.len() > 0 {
        let l = s.last();
        let r = insert_by_name(names, s, x);
        if name_lt(names[x as int], names[l as int]) {
            let p = s.drop_last();
            lemma_insert_sorted_contents(names, p, x);
            let q = insert_by_name(names, p, x);
            assert forall|k: int| 0 <= k < r.len() implies (#[trigger] r[k] == x || s.contains(r[k])) by {
                if k < q.len() && q[k] != x {
                    let m = choose|m: int| 0 <= m < p.len() && p[m] == q[k];
                    assert(s[m] == p[m]);
                } else if k == q.len() {
                    assert(s[s.len() - 1] == l);
                }
            }
        } else {
            assert forall|k: int| 0 <= k < r.len() implies (#[trigger] r[k] == x || s.contains(r[k])) by {
                if k < s.len() {
                    assert(s[k] == r[k]);
                }
            }
        }
    }
}

/// The name order is a permutation of `0..n` and never puts a name after one
/// that sorts later.
pub proof fn lemma_sorted_order(names: Seq<Seq<char>>, n: nat)
    ensures
        sorted_order(names, n).len() == n,
        sorted_order(names, n).to_multiset() =~= Seq::new(n, |i: int| i as usize).to_multiset(),
        forall|k: int| 0 <= k < n ==> #[trigger] sorted_order(names, n)[k] < n,
        is_sorted_by_name(names, sorted_order(names, n)),
        n <= usize::MAX ==> sorted_order(names, n).no_duplicates(),
    decreases n,
{
    broadcast use vstd::seq_lib::group_to_multiset_ensures;
    if n > 0 {
        let m = (n - 1) as nat;
        let p = sorted_order(names, m);
        lemma_sorted_order(names, m);
        lemma_insert_contents(names, p, m as usize);
        lemma_insert_sorted(names, p, m as usize);
        lemma_insert_sorted_contents(names, p, m as usize);
        if n <= usize::MAX {
            assert(!p.contains(m as usize)) by {
                if p.contains(m as usize) {
                    let k = choose|k: int| 0 <= k < p.len() && p[k] == m as usize;
                    assert(p[k] < m);
                }
            }
            lemma_insert_distinct(names, p, m as usize);
        }
        let ids = Seq::new(n, |i: int| i as usize);
        assert(ids =~= Seq::new(m, |i: int| i as usize).push(m as usize));
    }
}

} // verus!
