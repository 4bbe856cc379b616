//! Frequency tables of token sequences.
use vstd::prelude::*;

use vstd::laws_eq::obeys_concrete_eq;
use vstd::multiset::Multiset;
use vstd::std_specs::cmp::PartialEqSpec;

use crate::{EmptyListError, TextError};

verus! {

/// How many times `x` occurs in `s`.
pub open spec fn count_in<T>(s: Seq<T>, x: T) -> nat
    decreases s.len(),
{
    if s.len() == 0 {
        0
    } else {
        count_in(s.drop_last(), x) + if s.last() == x {
            1nat
        } else {
            0nat
        }
    }
}

/// The distinct elements of `s`, in the order of their first occurrence.
pub open spec fn firsts<T>(s: Seq<T>) -> Seq<T>
    decreases s.len(),
{
    if s.len() == 0 {
        seq![]
    } else {
        let f = firsts(s.drop_last());
        if f.contains(s.last()) {
            f
        } else {
            f.push(s.last())
        }
    }
}

/// The occurrence counts of the distinct elements of `s`, as a multiset.
pub open spec fn count_profile<T>(s: Seq<T>) -> Multiset<nat> {
    firsts(s).map_values(|x: T| count_in(s, x)).to_multiset()
}

/// A sequence sorted in ascending order.
pub open spec fn sorted(s: Seq<u32>) -> bool {
    forall|i: int, j: int| 0 <= i <= j < s.len() ==> s[i] <= s[j]
}

/// The counts that a frequency table holds, in its order.
pub open spec fn table_counts<T>(t: Seq<(&T, u32)>) -> Seq<u32> {
    t.map_values(|p: (&T, u32)| p.1)
}

pub proof fn lemma_count_bound<T>(s: Seq<T>, x: T)
    ensures
        count_in(s, x) <= s.len(),
        s.contains(x) <==> count_in(s, x) > 0,
    decreases s.len(),
{
    if s.len() > 0 {
        lemma_count_bound(s.drop_last(), x);
        if s.drop_last().contains(x) {
            let k = choose|k: int| 0 <= k < s.drop_last().len() && s.drop_last()[k] == x;
            assert(s[k] == x);
        }
        if s.contains(x) && s.last() != x {
            let k = choose|k: int| 0 <= k < s.len() && s[k] == x;
            assert(s.drop_last()[k] == x);
        }
        if s.last() == x {
            assert(s[s.len() - 1] == x);
        }
    }
}

/// `firsts(s)` holds each element of `s` exactly once.
pub proof fn lemma_firsts<T>(s: Seq<T>)
    ensures
        firsts(s).no_duplicates(),
        firsts(s).len() <= s.len(),
        forall|x: T| firsts(s).contains(x) <==> s.contains(x),
    decreases s.len(),
{
    if s.len() > 0 {
        let t = s.drop_last();
        lemma_firsts(t);
        assert forall|x: T| firsts(s).contains(x) <==> s.contains(x) by {
            if t.contains(x) {
                let k = choose|k: int| 0 <= k < t.len() && t[k] == x;
                assert(s[k] == x);
            }
            if s.contains(x) && x != s.last() {
                let k = choose|k: int| 0 <= k < s.len() && s[k] == x;
                assert(t[k] == x);
            }
            if !firsts(t).contains(s.last()) {
                let f = firsts(t).push(s.last());
                assert(f[f.len() - 1] == s.last());
                if firsts(t).contains(x) {
                    let k = choose|k: int| 0 <= k < firsts(t).len() && firsts(t)[k] == x;
                    assert(f[k] == x);
                }
                if f.contains(x) && x != s.last() {
                    let k = choose|k: int| 0 <= k < f.len() && f[k] == x;
                    assert(firsts(t)[k] == x);
                }
            }
            assert(s[s.len() - 1] == s.last());
        }
    }
}

/// Step of `firsts` and `count_in` when one element is appended.
pub proof fn lemma_push<T>(t: Seq<T>, x: T)
    ensures
        t.push(x).drop_last() == t,
        firsts(t.push(x)) == if firsts(t).contains(x) {
            firsts(t)
        } else {
            firsts(t).push(x)
        },
        forall|y: T| #[trigger] count_in(t.push(x), y) == count_in(t, y) + if x == y {
            1nat
        } else {
            0nat
        },
{
    assert(t.push(x).drop_last() =~= t);
}

/// Counts how many times each distinct element occurs in `src`; the table lists
/// the elements in the order of their first occurrence.
pub fn make_freq_map<'a, T: PartialEq>(src: &'a [T]) -> (r: Result<Vec<(&'a T, u32)>, TextError>)
    requires
        obeys_concrete_eq::<T>(),
        src@.len() <= u32::MAX,
    ensures
        src@.len() == 0 ==> r == Err::<Vec<(&'a T, u32)>, TextError>(
            TextError::EmptyList(EmptyListError),
        ),
        src@.len() > 0 ==> r is Ok,
        r is Ok ==> {
            let t = r->Ok_0@;
            &&& t.len() == firsts(src@).len()
            &&& forall|k: int|
                0 <= k < t.len() ==> *t[k].0 == firsts(src@)[k] && t[k].1 == count_in(
                    src@,
                    firsts(src@)[k],
                )
        },
{
    if src.len() == 0 {
        return Err(TextError::EmptyList(EmptyListError));
    }
    proof {
        reveal(obeys_concrete_eq);
    }
    let mut table: Vec<(&'a T, u32)> = Vec::new();
    let mut i: usize = 0;
    assert(src@.take(0) =~= Seq::<T>::empty());
    while i < src.len()
        invariant
            obeys_concrete_eq::<T>(),
            T::obeys_eq_spec(),
            forall|x: T, y: T| x.eq_spec(&y) <==> x == y,
            i <= src@.len() <= u32::MAX,
            table@.len() == firsts(src@.take(i as int)).len(),
            forall|k: int|
                0 <= k < table@.len() ==> *table@[k].0 == firsts(src@.take(i as int))[k]
                    && table@[k].1 == count_in(src@.take(i as int), firsts(src@.take(i as int))[k]),
        decreases src@.len() - i,
    {
        let x = &src[i];
        let ghost t = src@.take(i as int);
        let ghost f = firsts(t);
        assert(src@.take(i + 1) =~= t.push(*x));
        proof {
            lemma_push(t, *x);
        }
        let mut k: usize = 0;
        while k < table.len() && !(*table[k].0 == *x)
            invariant
                T::obeys_eq_spec(),
                forall|x: T, y: T| x.eq_spec(&y) <==> x == y,
                k <= table@.len(),
                table@.len() == f.len(),
                forall|m: int| 0 <= m < table@.len() ==> *table@[m].0 == f[m],
                forall|m: int| 0 <= m < k ==> f[m] != *x,
            decreases table@.len() - k,
        {
            k = k + 1;
        }
        proof {
            lemma_count_bound(t, *x);
            lemma_firsts(t);
        }
        if k < table.len() {
            let (key, c) = table[k];
            assert(f[k as int] == *x);
            assert(f.contains(*x));
            table.set(k, (key, c + 1));
            proof {
                assert forall|m: int| 0 <= m < f.len() && m != k implies f[m] != *x by {
                    if f[m] == *x {
                        assert(f[m] == f[k as int]);
                    }
                }
            }
        } else {
            assert(!f.contains(*x));
            table.push((x, 1));
            proof {
                lemma_count_bound(t, *x);
            }
        }
        proof {
            let g = firsts(src@.take(i + 1));
            assert forall|m: int| 0 <= m < table@.len() implies *table@[m].0 == g[m]
                && table@[m].1 == count_in(src@.take(i + 1), g[m]) by {
                assert(count_in(t.push(*x), g[m]) == count_in(t, g[m]) + if *x == g[m] {
                    1nat
                } else {
                    0nat
                });
            }
        }
        i = i + 1;
    }
    assert(src@.take(i as int) =~= src@);
    Ok(table)
}

/// Relies on `slice::sort`: the slice keeps its elements, in ascending order.
#[verifier::external_body]
fn sort_counts(v: &mut Vec<u32>)
    ensures
        final(v)@.to_multiset() == old(v)@.to_multiset(),
        sorted(final(v)@),
{
    v.sort();
}

/// The counts of a frequency table, sorted in ascending order.
pub fn make_freq_list<T>(occurrences: Vec<(&T, u32)>) -> (r: Result<Vec<u32>, TextError>)
    ensures
        occurrences@.len() == 0 ==> r == Err::<Vec<u32>, TextError>(
            TextError::EmptyList(EmptyListError),
        ),
        occurrences@.len() > 0 ==> r is Ok,
        r is Ok ==> sorted(r->Ok_0@) && r->Ok_0@.to_multiset() == table_counts(
            occurrences@,
        ).to_multiset(),
{
    if occurrences.len() == 0 {
        return Err(TextError::EmptyList(EmptyListError));
    }
    let mut list: Vec<u32> = Vec::new();
    let mut i: usize = 0;
    while i < occurrences.len()
        invariant
            i <= occurrences@.len(),
            list@.len() == i,
            forall|k: int| 0 <= k < i ==> list@[k] == occurrences@[k].1,
        decreases occurrences@.len() - i,
    {
        list.push(occurrences[i].1);
        i = i + 1;
    }
    assert(list@ =~= table_counts(occurrences@));
    sort_counts(&mut list);
    Ok(list)
}

} // verus!
