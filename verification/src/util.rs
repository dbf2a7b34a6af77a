//! Small building blocks shared by the bots: slug comparison and searches over sequences.

use vstd::prelude::*;

verus! {

/// `card` names the slug `lit`.
pub open spec fn card_is(card: Option<String>, lit: Seq<char>) -> bool {
    card matches Some(c) && c@ == lit
}

/// The slug that `card` names, as a sequence of characters.
pub open spec fn card_view(card: Option<String>) -> Option<Seq<char>> {
    match card {
        Some(c) => Some(c@),
        None => None,
    }
}

/// Two strings hold the same characters.
pub fn str_eq(a: &str, b: &str) -> (r: bool)
    ensures
        r == (a@ == b@),
{
    let x = a.to_owned();
    let y = b.to_owned();
    x == y
}

/// Whether `card` names the slug `lit`.
pub fn card_is_exec(card: &Option<String>, lit: &str) -> (r: bool)
    ensures
        r == card_is(*card, lit@),
{
    match card {
        Some(c) => str_eq(c.as_str(), lit),
        None => false,
    }
}

/// The first index at or after `i` whose element satisfies `f`.
pub open spec fn first_from<A>(s: Seq<A>, f: spec_fn(A) -> bool, i: int) -> Option<int>
    decreases s.len() - i,
{
    if i < 0 || i >= s.len() {
        None
    } else if f(s[i]) {
        Some(i)
    } else {
        first_from(s, f, i + 1)
    }
}

/// The first index whose element satisfies `f`.
pub open spec fn first_where<A>(s: Seq<A>, f: spec_fn(A) -> bool) -> Option<int> {
    first_from(s, f, 0)
}

/// `first_from` finds the least satisfying index at or after `i`.
pub proof fn lemma_first_from<A>(s: Seq<A>, f: spec_fn(A) -> bool, i: int)
    requires
        0 <= i <= s.len(),
    ensures
        first_from(s, f, i) matches Some(k) ==> i <= k < s.len() && f(s[k]) && forall|j: int|
            i <= j < k ==> !f(#[trigger] s[j]),
        first_from(s, f, i) is None ==> forall|j: int| i <= j < s.len() ==> !f(#[trigger] s[j]),
    decreases s.len() - i,
{
    if i < s.len() {
        lemma_first_from(s, f, i + 1);
    }
}

/// Characterisation of `first_where` by indices.
pub proof fn lemma_first_where<A>(s: Seq<A>, f: spec_fn(A) -> bool)
    ensures
        first_where(s, f) matches Some(k) ==> 0 <= k < s.len() && f(s[k]) && forall|j: int|
            0 <= j < k ==> !f(#[trigger] s[j]),
        first_where(s, f) is None <==> forall|j: int| 0 <= j < s.len() ==> !f(#[trigger] s[j]),
{
    lemma_first_from(s, f, 0);
}

/// An index found by a left-to-right scan is the first satisfying index.
pub proof fn lemma_first_at<A>(s: Seq<A>, f: spec_fn(A) -> bool, i: int)
    requires
        0 <= i < s.len(),
        f(s[i]),
        forall|j: int| 0 <= j < i ==> !f(#[trigger] s[j]),
    ensures
        first_where(s, f) == Some(i),
{
    lemma_first_where(s, f);
    match first_where(s, f) {
        Some(k) => {
            if k < i {
                assert(!f(s[k]));
            }
            if k > i {
                assert(!f(s[i]));
            }
        },
        None => {
            assert(!f(s[i]));
        },
    }
}

/// A scan that found nothing means there is no satisfying index.
pub proof fn lemma_first_none<A>(s: Seq<A>, f: spec_fn(A) -> bool)
    requires
        forall|j: int| 0 <= j < s.len() ==> !f(#[trigger] s[j]),
    ensures
        first_where(s, f) is None,
{
    lemma_first_where(s, f);
}

/// An optional index as an integer.
pub open spec fn opt_int(o: Option<usize>) -> Option<int> {
    match o {
        Some(k) => Some(k as int),
        None => None,
    }
}

/// Whether a vector of ids holds `x`.
pub fn contains_u32(v: &[u32], x: u32) -> (r: bool)
    ensures
        r == v@.contains(x),
{
    let mut i: usize = 0;
    while i < v.len()
        invariant
            i <= v@.len(),
            forall|j: int| 0 <= j < i ==> v@[j] != x,
        decreases v.len() - i,
    {
        if v[i] == x {
            assert(v@[i as int] == x);
            return true;
        }
        i = i + 1;
    }
    false
}

/// The element at the first index satisfying `f`.
pub open spec fn find_first<A>(s: Seq<A>, f: spec_fn(A) -> bool) -> Option<A> {
    match first_where(s, f) {
        Some(k) => Some(s[k]),
        None => None,
    }
}

/// Number of elements that satisfy `f`.
pub open spec fn count_where<A>(s: Seq<A>, f: spec_fn(A) -> bool) -> nat
    decreases s.len(),
{
    if s.len() == 0 {
        0
    } else {
        count_where(s.drop_last(), f) + if f(s.last()) {
            1nat
        } else {
            0nat
        }
    }
}

/// Counting over one more element of a prefix.
pub proof fn lemma_count_where_step<A>(s: Seq<A>, f: spec_fn(A) -> bool, i: int)
    requires
        0 <= i < s.len(),
    ensures
        count_where(s.take(i + 1), f) == count_where(s.take(i), f) + if f(s[i]) {
            1nat
        } else {
            0nat
        },
{
    assert(s.take(i + 1).drop_last() =~= s.take(i));
}

/// A count never exceeds the length.
pub proof fn lemma_count_where_le<A>(s: Seq<A>, f: spec_fn(A) -> bool)
    ensures
        count_where(s, f) <= s.len(),
    decreases s.len(),
{
    if s.len() > 0 {
        lemma_count_where_le(s.drop_last(), f);
    }
}

/// A count is positive exactly when some element satisfies `f`.
pub proof fn lemma_count_where_pos<A>(s: Seq<A>, f: spec_fn(A) -> bool)
    ensures
        count_where(s, f) > 0 <==> exists|j: int| 0 <= j < s.len() && f(#[trigger] s[j]),
    decreases s.len(),
{
    if s.len() > 0 {
        lemma_count_where_pos(s.drop_last(), f);
        if f(s.last()) {
            assert(f(s[s.len() - 1]));
        }
        if exists|j: int| 0 <= j < s.len() && f(#[trigger] s[j]) {
            let j = choose|j: int| 0 <= j < s.len() && f(#[trigger] s[j]);
            if j < s.len() - 1 {
                assert(s.drop_last()[j] == s[j]);
            }
        }
        assert forall|j: int| 0 <= j < s.drop_last().len() && f(#[trigger] s.drop_last()[j]) implies
            exists|k: int| 0 <= k < s.len() && f(#[trigger] s[k]) by {
            assert(s[j] == s.drop_last()[j]);
        }
    }
}

} // verus!

verus! {

/// The characters of `s`, in order.
pub fn chars_of(s: &str) -> (r: Vec<char>)
    ensures
        r@ == s@,
{
    broadcast use vstd::string::axiom_spec_iter;

    let mut v: Vec<char> = Vec::new();
    for c in it: s.chars()
        invariant
            v@ == it.seq().take(it.index() as int),
            it.seq() == s@,
    {
        v.push(c);
    }
    v
}

} // verus!
