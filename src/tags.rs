//! Tag alphabets and the frequency-preserving substitution of tokens by tags.
use vstd::prelude::*;

use vstd::laws_eq::obeys_concrete_eq;
use vstd::std_specs::cmp::PartialEqSpec;

use crate::freq::{count_in, count_profile, firsts, lemma_count_bound, lemma_firsts, lemma_push};
use crate::{EmptyListError, NotEnoughTagsError, TextError};

verus! {

/// The position of `x` in `s`; meaningful where `s` holds `x` once.
pub open spec fn index_in<T>(s: Seq<T>, x: T) -> int {
    choose|k: int| 0 <= k < s.len() && s[k] == x
}

/// The tag that `x` receives when `s` is substituted: the distinct tokens of `s`
/// draw the tags of `tags` in order, in the order of their first occurrence.
pub open spec fn tag_of<S, T>(s: Seq<S>, tags: Seq<T>, x: S) -> T {
    tags[index_in(firsts(s), x)]
}

/// Every token of `s` replaced by its tag.
pub open spec fn substitute<S, T>(s: Seq<S>, tags: Seq<T>) -> Seq<T> {
    s.map_values(|x: S| tag_of(s, tags, x))
}

/// What `replace_with_tags` returns for the tokens `s` and the alphabet `tags`.
pub open spec fn substitution<S, T>(s: Seq<S>, tags: Seq<T>) -> Result<Seq<T>, TextError> {
    if s.len() > tags.len() {
        Err(TextError::NotEnoughTags(NotEnoughTagsError))
    } else if s.len() == 0 {
        Err(TextError::EmptyList(EmptyListError))
    } else {
        Ok(substitute(s, tags))
    }
}

/// `a` holds the characters from `start` to `end` inclusive, each once, in
/// ascending order.
pub open spec fn is_char_range(a: Seq<char>, start: char, end: char) -> bool {
    &&& forall|i: int, j: int| 0 <= i < j < a.len() ==> (a[i] as u32) < (a[j] as u32)
    &&& forall|c: char| a.contains(c) <==> (start as u32 <= c as u32 <= end as u32)
}

pub proof fn lemma_index_in<T>(s: Seq<T>, x: T)
    requires
        s.no_duplicates(),
        s.contains(x),
    ensures
        0 <= index_in(s, x) < s.len(),
        s[index_in(s, x)] == x,
        forall|k: int| 0 <= k < s.len() && s[k] == x ==> k == index_in(s, x),
{
}

/// Relies on `char::from_u32`: a Unicode scalar value gives its character,
/// any other value gives none.
#[verifier::external_body]
fn char_from_u32(u: u32) -> (r: Option<char>)
    ensures
        r is Some <==> (u <= 0xD7FF || 0xE000 <= u <= 0x10FFFF),
        r is Some ==> r->0 as u32 == u,
{
    char::from_u32(u)
}

/// The alphabet of every character from `start` to `end` inclusive, in
/// ascending order; empty where `start > end`.
pub fn make_replace_list(start: char, end: char) -> (r: Vec<char>)
    ensures
        is_char_range(r@, start, end),
        r@.no_duplicates(),
{
    let lo = start as u32;
    let hi = end as u32;
    let mut r: Vec<char> = Vec::new();
    let mut u: u32 = lo;
    while u <= hi
        invariant
            lo == start as u32,
            hi == end as u32,
            hi <= 0x10FFFF,
            lo <= u,
            u <= hi + 1 || u == lo,
            forall|i: int, j: int| 0 <= i < j < r@.len() ==> (r@[i] as u32) < (r@[j] as u32),
            forall|i: int| 0 <= i < r@.len() ==> lo <= (#[trigger] r@[i] as u32) < u,
            forall|c: char| lo <= (c as u32) < u ==> r@.contains(c),
        decreases hi + 1 - u,
    {
        match char_from_u32(u) {
            Some(c) => {
                let ghost before = r@;
                r.push(c);
                assert(r@[r@.len() - 1] == c);
                assert forall|d: char| lo <= (d as u32) < u + 1 implies r@.contains(d) by {
                    if (d as u32) < u {
                        assert(before.contains(d));
                        let k = choose|k: int| 0 <= k < before.len() && before[k] == d;
                        assert(r@[k] == d);
                    } else {
                        vstd::utf8::char_u32_cast(d, u);
                        vstd::utf8::char_u32_cast(c, u);
                    }
                }
            },
            None => {
                assert forall|d: char| lo <= (d as u32) < u + 1 implies r@.contains(d) by {
                    vstd::utf8::char_is_scalar(d);
                }
            },
        }
        u = u + 1;
    }
    assert forall|c: char| r@.contains(c) implies (start as u32 <= c as u32 <= end as u32) by {
        let k = choose|k: int| 0 <= k < r@.len() && r@[k] == c;
    }
    r
}

/// Replaces every token of `src` by a tag of `tags`: the distinct tokens draw
/// the tags in order, in the order of their first occurrence, so that equal
/// tokens get equal tags and distinct tokens distinct ones.
pub fn replace_with_tags<S: PartialEq, T: Copy>(src: &[S], tags: Vec<T>) -> (r: Result<
    Vec<T>,
    TextError,
>)
    requires
        obeys_concrete_eq::<S>(),
        tags@.no_duplicates(),
    ensures
        match r {
            Ok(v) => substitution(src@, tags@) == Ok::<Seq<T>, TextError>(v@),
            Err(e) => substitution(src@, tags@) == Err::<Seq<T>, TextError>(e),
        },
{
    if src.len() > tags.len() {
        return Err(TextError::NotEnoughTags(NotEnoughTagsError));
    }
    if src.len() == 0 {
        return Err(TextError::EmptyList(EmptyListError));
    }
    proof {
        reveal(obeys_concrete_eq);
    }
    let mut keys: Vec<&S> = Vec::new();
    let mut out: Vec<T> = Vec::new();
    let mut i: usize = 0;
    assert(src@.take(0) =~= Seq::<S>::empty());
    while i < src.len()
        invariant
            S::obeys_eq_spec(),
            forall|x: S, y: S| x.eq_spec(&y) <==> x == y,
            i <= src@.len() <= tags@.len(),
            tags@.no_duplicates(),
            keys@.len() == firsts(src@.take(i as int)).len(),
            forall|m: int| 0 <= m < keys@.len() ==> *keys@[m] == firsts(src@.take(i as int))[m],
            out@.len() == i,
            forall|j: int|
                0 <= j < i ==> out@[j] == tags@[index_in(firsts(src@.take(i as int)), src@[j])],
        decreases src@.len() - i,
    {
        let x = &src[i];
        let ghost t = src@.take(i as int);
        let ghost f = firsts(t);
        assert(src@.take(i + 1) =~= t.push(*x));
        proof {
            lemma_push(t, *x);
            lemma_firsts(t);
            lemma_firsts(t.push(*x));
        }
        let mut k: usize = 0;
        while k < keys.len() && !(*keys[k] == *x)
            invariant
                S::obeys_eq_spec(),
                forall|x: S, y: S| x.eq_spec(&y) <==> x == y,
                k <= keys@.len(),
                keys@.len() == f.len(),
                forall|m: int| 0 <= m < keys@.len() ==> *keys@[m] == f[m],
                forall|m: int| 0 <= m < k ==> f[m] != *x,
            decreases keys@.len() - k,
        {
            k = k + 1;
        }
        if k < keys.len() {
            assert(f[k as int] == *x);
            proof {
                lemma_index_in(f, *x);
            }
            out.push(tags[k]);
        } else {
            assert(!f.contains(*x));
            keys.push(x);
            let ghost g = f.push(*x);
            assert(g[f.len() as int] == *x);
            proof {
                lemma_index_in(g, *x);
                assert forall|j: int| 0 <= j < i implies index_in(g, src@[j]) == index_in(
                    f,
                    src@[j],
                ) by {
                    assert(t[j] == src@[j]);
                    assert(t.contains(src@[j]));
                    lemma_index_in(f, src@[j]);
                    assert(g[index_in(f, src@[j])] == src@[j]);
                    lemma_index_in(g, src@[j]);
                }
            }
            out.push(tags[keys.len() - 1]);
        }
        i = i + 1;
    }
    assert(src@.take(i as int) =~= src@);
    assert(out@ =~= substitute(src@, tags@));
    Ok(out)
}

/// Relabelling a sequence by a map that is one-to-one on its elements keeps the
/// order of first occurrences and the count of every element.
pub proof fn lemma_relabel<S, T>(s: Seq<S>, g: spec_fn(S) -> T)
    requires
        forall|x: S, y: S| s.contains(x) && s.contains(y) && g(x) == g(y) ==> x == y,
    ensures
        firsts(s.map_values(g)) == firsts(s).map_values(g),
        forall|x: S| s.contains(x) ==> count_in(s.map_values(g), g(x)) == count_in(s, x),
    decreases s.len(),
{
    let m = s.map_values(g);
    if s.len() == 0 {
        assert(firsts(m) =~= firsts(s).map_values(g));
    } else {
        let t = s.drop_last();
        let x = s.last();
        assert(s[s.len() - 1] == x);
        assert forall|a: S| t.contains(a) implies s.contains(a) by {
            let k = choose|k: int| 0 <= k < t.len() && t[k] == a;
            assert(s[k] == a);
        }
        lemma_relabel(t, g);
        assert(m.drop_last() =~= t.map_values(g));
        assert(m.last() == g(x));
        lemma_firsts(t);
        lemma_firsts(t.map_values(g));
        let f = firsts(t);
        assert(f.contains(x) <==> f.map_values(g).contains(g(x))) by {
            if f.map_values(g).contains(g(x)) {
                let k = choose|k: int| 0 <= k < f.len() && f.map_values(g)[k] == g(x);
                assert(f.contains(f[k]));
                assert(t.contains(f[k]));
                assert(s.contains(f[k]));
                assert(s.contains(x));
                assert(f[k] == x);
            }
            if f.contains(x) {
                let k = choose|k: int| 0 <= k < f.len() && f[k] == x;
                assert(f.map_values(g)[k] == g(x));
            }
        }
        if !f.contains(x) {
            assert(f.push(x).map_values(g) =~= f.map_values(g).push(g(x)));
        }
        assert(s.contains(x));
        assert forall|a: S| s.contains(a) implies count_in(m, g(a)) == count_in(s, a) by {
            assert(count_in(m, g(a)) == count_in(t.map_values(g), g(a)) + if g(x) == g(a) {
                1nat
            } else {
                0nat
            });
            assert(count_in(s, a) == count_in(t, a) + if x == a {
                1nat
            } else {
                0nat
            });
            if !t.contains(a) {
                lemma_count_bound(t, a);
                lemma_count_bound(t.map_values(g), g(a));
                if t.map_values(g).contains(g(a)) {
                    let k = choose|k: int| 0 <= k < t.len() && t.map_values(g)[k] == g(a);
                    assert(t.contains(t[k]));
                }
            }
        }
    }
}

/// A token sequence and an alphabet with enough distinct tags.
pub open spec fn fits<S, T>(s: Seq<S>, tags: Seq<T>) -> bool {
    0 < s.len() <= tags.len() && tags.no_duplicates()
}

/// Distinct tokens of `s` receive distinct tags.
pub proof fn lemma_tag_of_injective<S, T>(s: Seq<S>, tags: Seq<T>, x: S, y: S)
    requires
        fits(s, tags),
        s.contains(x),
        s.contains(y),
        tag_of(s, tags, x) == tag_of(s, tags, y),
    ensures
        x == y,
{
    let f = firsts(s);
    lemma_firsts(s);
    lemma_index_in(f, x);
    lemma_index_in(f, y);
}

/// Substitution preserves the frequency profile: the occurrence counts of the
/// tags in the output are those of the tokens in the input.
pub proof fn lemma_substitution_preserves_profile<S, T>(s: Seq<S>, tags: Seq<T>)
    requires
        fits(s, tags),
    ensures
        substitution(s, tags) is Ok,
        count_profile(substitution(s, tags)->Ok_0) == count_profile(s),
{
    let g = |x: S| tag_of(s, tags, x);
    assert forall|x: S, y: S| s.contains(x) && s.contains(y) && g(x) == g(y) implies x == y by {
        lemma_tag_of_injective(s, tags, x, y);
    }
    lemma_relabel(s, g);
    lemma_firsts(s);
    let m = substitute(s, tags);
    assert(m == s.map_values(g));
    let f = firsts(s);
    assert(firsts(m).map_values(|u: T| count_in(m, u)) =~= f.map_values(|x: S| count_in(s, x))) by {
        assert forall|k: int| 0 <= k < f.len() implies count_in(m, g(f[k])) == count_in(s, f[k]) by {
            assert(f.contains(f[k]));
        }
    }
}

/// Substitution is injective: two positions that hold distinct tokens hold
/// distinct tags in the output.
pub proof fn lemma_substitution_injective<S, T>(s: Seq<S>, tags: Seq<T>, i: int, j: int)
    requires
        fits(s, tags),
        0 <= i < s.len(),
        0 <= j < s.len(),
        s[i] != s[j],
    ensures
        substitution(s, tags) is Ok,
        substitution(s, tags)->Ok_0[i] != substitution(s, tags)->Ok_0[j],
{
    if tag_of(s, tags, s[i]) == tag_of(s, tags, s[j]) {
        lemma_tag_of_injective(s, tags, s[i], s[j]);
    }
}

/// Two ascending sequences of distinct characters that hold the same characters
/// are equal.
pub proof fn lemma_ascending_unique(a: Seq<char>, b: Seq<char>)
    requires
        forall|i: int, j: int| 0 <= i < j < a.len() ==> (a[i] as u32) < (a[j] as u32),
        forall|i: int, j: int| 0 <= i < j < b.len() ==> (b[i] as u32) < (b[j] as u32),
        forall|c: char| a.contains(c) <==> b.contains(c),
    ensures
        a == b,
    decreases a.len() + b.len(),
{
    if a.len() == 0 || b.len() == 0 {
        if a.len() > 0 {
            assert(a.contains(a[0]));
        }
        if b.len() > 0 {
            assert(b.contains(b[0]));
        }
        assert(a =~= b);
    } else {
        let x = a.last();
        let y = b.last();
        assert(a.contains(x) && b.contains(y)) by {
            assert(a[a.len() - 1] == x);
            assert(b[b.len() - 1] == y);
        }
        let ka = choose|k: int| 0 <= k < a.len() && a[k] == y;
        let kb = choose|k: int| 0 <= k < b.len() && b[k] == x;
        assert(x == y) by {
            if ka < a.len() - 1 {
                assert((a[ka] as u32) < (a[a.len() - 1] as u32));
            }
            if kb < b.len() - 1 {
                assert((b[kb] as u32) < (b[b.len() - 1] as u32));
            }
            vstd::utf8::char_u32_cast(x, x as u32);
            vstd::utf8::char_u32_cast(y, y as u32);
        }
        let a2 = a.drop_last();
        let b2 = b.drop_last();
        assert forall|c: char| a2.contains(c) <==> b2.contains(c) by {
            if a2.contains(c) {
                let k = choose|k: int| 0 <= k < a2.len() && a2[k] == c;
                assert(a[k] == c && (a[k] as u32) < (a[a.len() - 1] as u32));
                assert(b.contains(c));
                let m = choose|m: int| 0 <= m < b.len() && b[m] == c;
                assert(m != b.len() - 1);
                assert(b2[m] == c);
            }
            if b2.contains(c) {
                let k = choose|k: int| 0 <= k < b2.len() && b2[k] == c;
                assert(b[k] == c && (b[k] as u32) < (b[b.len() - 1] as u32));
                assert(a.contains(c));
                let m = choose|m: int| 0 <= m < a.len() && a[m] == c;
                assert(m != a.len() - 1);
                assert(a2[m] == c);
            }
        }
        lemma_ascending_unique(a2, b2);
        assert(a =~= a2.push(x));
        assert(b =~= b2.push(y));
    }
}

/// Substitution is deterministic: alphabets built from the same range are
/// equal, so the same tokens give the same outcome.
pub proof fn lemma_substitution_deterministic<S>(
    s: Seq<S>,
    start: char,
    end: char,
    a1: Seq<char>,
    a2: Seq<char>,
)
    requires
        is_char_range(a1, start, end),
        is_char_range(a2, start, end),
    ensures
        a1 == a2,
        substitution(s, a1) == substitution(s, a2),
{
    lemma_ascending_unique(a1, a2);
}

} // verus!
