//! Counting the values of a sequence: how often one occurs, and which
//! occur at all.

use vstd::prelude::*;

verus! {

/// How often `v` occurs in `s`.
pub open spec fn count_of<A>(s: Seq<A>, v: A) -> nat
    decreases s.len(),
{
    if s.len() == 0 {
        0
    } else {
        count_of(s.drop_last(), v) + if s.last() == v {
            1nat
        } else {
            0nat
        }
    }
}

/// The values of `s`, each once, in the order in which they first occur.
pub open spec fn distinct<A>(s: Seq<A>) -> Seq<A>
    decreases s.len(),
{
    if s.len() == 0 {
        Seq::empty()
    } else {
        let front = distinct(s.drop_last());
        if front.contains(s.last()) {
            front
        } else {
            front.push(s.last())
        }
    }
}

/// A value occurs at most as often as the sequence is long, and at least
/// once exactly if the sequence holds it.
pub proof fn lemma_count_of<A>(s: Seq<A>, v: A)
    ensures
        count_of(s, v) <= s.len(),
        count_of(s, v) > 0 <==> s.contains(v),
    decreases s.len(),
{
    if s.len() > 0 {
        let front = s.drop_last();
        lemma_count_of(front, v);
        if front.contains(v) {
            let i = choose|i: int| 0 <= i < front.len() && front[i] == v;
            assert(s[i] == v);
        }
        if s.last() == v {
            assert(s[s.len() - 1] == v);
        }
        if s.contains(v) && s.last() != v {
            let i = choose|i: int| 0 <= i < s.len() && s[i] == v;
            assert(front[i] == v);
        }
    }
}

/// The distinct values of a sequence are its values, and none comes twice.
pub proof fn lemma_distinct<A>(s: Seq<A>)
    ensures
        distinct(s).no_duplicates(),
        distinct(s).len() <= s.len(),
        forall|v: A| #[trigger] distinct(s).contains(v) <==> s.contains(v),
    decreases s.len(),
{
    if s.len() > 0 {
        let front = s.drop_last();
        let d = distinct(front);
        lemma_distinct(front);
        assert forall|v: A| #[trigger] distinct(s).contains(v) <==> s.contains(v) by {
            if distinct(s).contains(v) {
                let k = choose|k: int| 0 <= k < distinct(s).len() && distinct(s)[k] == v;
                if k < d.len() {
                    assert(d[k] == v);
                    assert(d.contains(v));
                    let i = choose|i: int| 0 <= i < front.len() && front[i] == v;
                    assert(s[i] == v);
                } else {
                    assert(s[s.len() - 1] == v);
                }
            }
            if s.contains(v) {
                let i = choose|i: int| 0 <= i < s.len() && s[i] == v;
                if i < front.len() {
                    assert(front[i] == v);
                    assert(d.contains(v));
                    let k = choose|k: int| 0 <= k < d.len() && d[k] == v;
                    assert(distinct(s)[k] == v);
                } else if d.contains(v) {
                    let k = choose|k: int| 0 <= k < d.len() && d[k] == v;
                    assert(distinct(s)[k] == v);
                } else {
                    assert(distinct(s)[d.len() as int] == v);
                }
            }
        }
    }
}

/// Counting does not look at the order: a value occurs in a sequence as
/// often as in the multiset of its values.
pub proof fn lemma_count_of_multiset<A>(s: Seq<A>, v: A)
    ensures
        count_of(s, v) == s.to_multiset().count(v),
    decreases s.len(),
{
    if s.len() == 0 {
        s.to_multiset_ensures();
        assert(s.to_multiset().len() == 0);
    } else {
        let front = s.drop_last();
        lemma_count_of_multiset(front, v);
        front.to_multiset_ensures();
        assert(front.push(s.last()) =~= s);
    }
}

/// The occurrences in `s` of all the values of `keys` together.
pub open spec fn count_of_all<A>(s: Seq<A>, keys: Seq<A>) -> nat
    decreases keys.len(),
{
    if keys.len() == 0 {
        0
    } else {
        count_of_all(s, keys.drop_last()) + count_of(s, keys.last())
    }
}

/// A value that occurs among values without repetition occurs once.
pub proof fn lemma_count_of_unique<A>(keys: Seq<A>, v: A)
    requires
        keys.no_duplicates(),
        keys.contains(v),
    ensures
        count_of(keys, v) == 1,
    decreases keys.len(),
{
    let front = keys.drop_last();
    lemma_count_of(front, v);
    if keys.last() == v {
        if front.contains(v) {
            let i = choose|i: int| 0 <= i < front.len() && front[i] == v;
            assert(keys[i] == keys[keys.len() - 1]);
        }
    } else {
        let i = choose|i: int| 0 <= i < keys.len() && keys[i] == v;
        assert(front[i] == v);
        lemma_count_of_unique(front, v);
    }
}

/// One more value at the end of `s` adds to the occurrences of the keys as
/// often as it is a key.
pub proof fn lemma_count_of_all_push<A>(s: Seq<A>, v: A, keys: Seq<A>)
    ensures
        count_of_all(s.push(v), keys) == count_of_all(s, keys) + count_of(keys, v),
    decreases keys.len(),
{
    if keys.len() > 0 {
        lemma_count_of_all_push(s, v, keys.drop_last());
        assert(s.push(v).drop_last() =~= s);
    }
}

/// The occurrences of the distinct values of a sequence add up to its
/// length.
pub proof fn lemma_counts_add_up<A>(s: Seq<A>)
    ensures
        count_of_all(s, distinct(s)) == s.len(),
    decreases s.len(),
{
    if s.len() > 0 {
        let front = s.drop_last();
        let v = s.last();
        let d = distinct(front);
        lemma_counts_add_up(front);
        lemma_distinct(front);
        lemma_distinct(s);
        assert(front.push(v) =~= s);
        lemma_count_of_all_push(front, v, distinct(s));
        assert(distinct(s).contains(v)) by {
            assert(s[s.len() - 1] == v);
        }
        lemma_count_of_unique(distinct(s), v);
        if !d.contains(v) {
            assert(distinct(s).drop_last() =~= d);
            lemma_count_of(front, v);
        }
    }
}

/// Counts how often `v` occurs in `s`.
pub fn count_value(s: &Vec<isize>, v: isize) -> (n: usize)
    ensures
        n == count_of(s@, v),
{
    let len: usize = s.len();
    let mut n: usize = 0;
    let mut i: usize = 0;
    while i < len
        invariant
            i <= len,
            len == s@.len(),
            n == count_of(s@.take(i as int), v),
            n <= i,
        decreases len - i,
    {
        proof {
            assert(s@.take(i + 1).drop_last() =~= s@.take(i as int));
        }
        if s[i] == v {
            n += 1;
        }
        i += 1;
    }
    proof {
        assert(s@.take(len as int) =~= s@);
    }
    n
}

} // verus!
