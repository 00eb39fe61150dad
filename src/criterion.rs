use vstd::prelude::*;

verus! {

/// The largest element of a non-empty sequence.
pub open spec fn max_of(s: Seq<i128>) -> i128
    decreases s.len(),
{
    if s.len() <= 1 {
        s[0]
    } else {
        let m = max_of(s.drop_last());
        if s.last() > m {
            s.last()
        } else {
            m
        }
    }
}

/// The smallest element of a non-empty sequence.
pub open spec fn min_of(s: Seq<i128>) -> i128
    decreases s.len(),
{
    if s.len() <= 1 {
        s[0]
    } else {
        let m = min_of(s.drop_last());
        if s.last() < m {
            s.last()
        } else {
            m
        }
    }
}

/// The indices, in increasing order, at which `s` holds `v`.
pub open spec fn ties(s: Seq<i128>, v: i128) -> Seq<usize>
    decreases s.len(),
{
    if s.len() == 0 {
        Seq::empty()
    } else {
        let t = ties(s.drop_last(), v);
        if s.last() == v {
            t.push((s.len() - 1) as usize)
        } else {
            t
        }
    }
}

pub proof fn lemma_max_of(s: Seq<i128>)
    requires
        s.len() >= 1,
    ensures
        exists|i: int| 0 <= i < s.len() && s[i] == max_of(s),
        forall|i: int| 0 <= i < s.len() ==> s[i] <= max_of(s),
    decreases s.len(),
{
    if s.len() > 1 {
        lemma_max_of(s.drop_last());
        let m = max_of(s.drop_last());
        let w = choose|i: int| 0 <= i < s.len() - 1 && s.drop_last()[i] == m;
        if s.last() > m {
            assert(s[s.len() - 1] == max_of(s));
        } else {
            assert(s[w] == max_of(s));
        }
        assert forall|i: int| 0 <= i < s.len() implies s[i] <= max_of(s) by {
            if i < s.len() - 1 {
                assert(s[i] == s.drop_last()[i]);
            }
        }
    } else {
        assert(s[0] == max_of(s));
    }
}

pub proof fn lemma_min_of(s: Seq<i128>)
    requires
        s.len() >= 1,
    ensures
        exists|i: int| 0 <= i < s.len() && s[i] == min_of(s),
        forall|i: int| 0 <= i < s.len() ==> min_of(s) <= s[i],
    decreases s.len(),
{
    if s.len() > 1 {
        lemma_min_of(s.drop_last());
        let m = min_of(s.drop_last());
        let w = choose|i: int| 0 <= i < s.len() - 1 && s.drop_last()[i] == m;
        if s.last() < m {
            assert(s[s.len() - 1] == min_of(s));
        } else {
            assert(s[w] == min_of(s));
        }
        assert forall|i: int| 0 <= i < s.len() implies min_of(s) <= s[i] by {
            if i < s.len() - 1 {
                assert(s[i] == s.drop_last()[i]);
            }
        }
    } else {
        assert(s[0] == min_of(s));
    }
}

/// A value that is in `s` and bounds it from above is its maximum.
pub proof fn lemma_max_of_unique(s: Seq<i128>, m: i128)
    requires
        s.len() >= 1,
        exists|i: int| 0 <= i < s.len() && s[i] == m,
        forall|i: int| 0 <= i < s.len() ==> s[i] <= m,
    ensures
        max_of(s) == m,
{
    lemma_max_of(s);
    let w = choose|i: int| 0 <= i < s.len() && s[i] == m;
    let v = choose|i: int| 0 <= i < s.len() && s[i] == max_of(s);
    assert(s[w] <= max_of(s));
    assert(s[v] <= m);
}

/// A value that is in `s` and bounds it from below is its minimum.
pub proof fn lemma_min_of_unique(s: Seq<i128>, m: i128)
    requires
        s.len() >= 1,
        exists|i: int| 0 <= i < s.len() && s[i] == m,
        forall|i: int| 0 <= i < s.len() ==> m <= s[i],
    ensures
        min_of(s) == m,
{
    lemma_min_of(s);
    let w = choose|i: int| 0 <= i < s.len() && s[i] == m;
    let v = choose|i: int| 0 <= i < s.len() && s[i] == min_of(s);
    assert(min_of(s) <= s[w]);
    assert(m <= s[v]);
}

/// The indices listed by `ties` are exactly those that hold the value, in
/// increasing order.
pub proof fn lemma_ties(s: Seq<i128>, v: i128)
    requires
        s.len() <= usize::MAX,
    ensures
        forall|k: int| 0 <= k < ties(s, v).len() ==> (#[trigger] ties(s, v)[k] as int) < s.len(),
        forall|k: int| 0 <= k < ties(s, v).len() ==> s[#[trigger] ties(s, v)[k] as int] == v,
        forall|k: int, l: int| 0 <= k < l < ties(s, v).len() ==> ties(s, v)[k] < ties(s, v)[l],
        forall|i: int| 0 <= i < s.len() && s[i] == v ==> ties(s, v).contains(i as usize),
    decreases s.len(),
{
    if s.len() > 0 {
        let p = s.drop_last();
        lemma_ties(p, v);
        let t = ties(p, v);
        let n = (s.len() - 1) as usize;
        assert forall|k: int| 0 <= k < t.len() implies (t[k] as int) < n && s[t[k] as int] == v by {
            assert(p[t[k] as int] == v);
        }
        if s.last() == v {
            assert(ties(s, v) == t.push(n));
        } else {
            assert(ties(s, v) == t);
        }
        assert forall|i: int| 0 <= i < s.len() && s[i] == v implies ties(s, v).contains(
            i as usize,
        ) by {
            if i < s.len() - 1 {
                assert(p[i] == v);
                let k = choose|k: int| 0 <= k < t.len() && t[k] == i as usize;
                assert(ties(s, v)[k] == i as usize);
            } else {
                assert(ties(s, v)[t.len() as int] == i as usize);
            }
        }
    }
}

/// The largest element of `v`.
pub fn get_max(v: &Vec<i128>) -> (r: i128)
    requires
        v@.len() >= 1,
    ensures
        r == max_of(v@),
{
    let mut m = v[0];
    let mut i: usize = 1;
    while i < v.len()
        invariant
            1 <= i <= v@.len(),
            m == max_of(v@.take(i as int)),
        decreases v@.len() - i,
    {
        assert(v@.take(i + 1).drop_last() =~= v@.take(i as int));
        if v[i] > m {
            m = v[i];
        }
        i = i + 1;
    }
    assert(v@.take(i as int) =~= v@);
    m
}

/// The smallest element of `v`.
pub fn get_min(v: &Vec<i128>) -> (r: i128)
    requires
        v@.len() >= 1,
    ensures
        r == min_of(v@),
{
    let mut m = v[0];
    let mut i: usize = 1;
    while i < v.len()
        invariant
            1 <= i <= v@.len(),
            m == min_of(v@.take(i as int)),
        decreases v@.len() - i,
    {
        assert(v@.take(i + 1).drop_last() =~= v@.take(i as int));
        if v[i] < m {
            m = v[i];
        }
        i = i + 1;
    }
    assert(v@.take(i as int) =~= v@);
    m
}

/// The indices at which `a` holds `value`, in increasing order.
pub fn get_indeces(a: &Vec<i128>, value: i128) -> (r: Vec<usize>)
    ensures
        r@ == ties(a@, value),
{
    let mut r: Vec<usize> = Vec::new();
    let mut i: usize = 0;
    while i < a.len()
        invariant
            i <= a@.len(),
            r@ == ties(a@.take(i as int), value),
        decreases a@.len() - i,
    {
        assert(a@.take(i + 1).drop_last() =~= a@.take(i as int));
        if a[i] == value {
            r.push(i);
        }
        i = i + 1;
    }
    assert(a@.take(i as int) =~= a@);
    r
}

} // verus!
