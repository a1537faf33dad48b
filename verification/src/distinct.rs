//! Sequences without repetition: the first occurrences of a sequence, in
//! order, and the concatenation of a family of sequences.

use vstd::prelude::*;

verus! {

/// The first occurrence of each value of `s`, in the order of `s`.
pub open spec fn distinct<T>(s: Seq<T>) -> Seq<T>
    decreases s.len(),
{
    if s.len() == 0 {
        Seq::empty()
    } else {
        let d = distinct(s.drop_last());
        if d.contains(s.last()) {
            d
        } else {
            d.push(s.last())
        }
    }
}

/// `f(0) + f(1) + ... + f(n - 1)`.
pub open spec fn concat<T>(n: nat, f: spec_fn(int) -> Seq<T>) -> Seq<T>
    decreases n,
{
    if n == 0 {
        Seq::empty()
    } else {
        concat((n - 1) as nat, f) + f(n - 1)
    }
}

/// `distinct(s)` holds the values of `s`, each once, and is no longer.
pub proof fn lemma_distinct<T>(s: Seq<T>)
    ensures
        forall|x: T|
            #![trigger distinct(s).contains(x)]
            #![trigger s.contains(x)]
            distinct(s).contains(x) <==> s.contains(x),
        distinct(s).no_duplicates(),
        distinct(s).len() <= s.len(),
        s.len() > 0 ==> distinct(s).len() >= 1 && distinct(s)[0] == s[0],
    decreases s.len(),
{
    if s.len() > 0 {
        let rest = s.drop_last();
        let d = distinct(rest);
        lemma_distinct(rest);
        assert forall|x: T|
            #![trigger distinct(s).contains(x)]
            #![trigger s.contains(x)]
            distinct(s).contains(x) <==> s.contains(x) by {
            if distinct(s).contains(x) {
                if d.contains(x) {
                    assert(rest.contains(x));
                    let i = choose|i: int| 0 <= i < rest.len() && rest[i] == x;
                    assert(s[i] == x);
                } else {
                    let i = choose|i: int| 0 <= i < distinct(s).len() && distinct(s)[i] == x;
                    if i < d.len() {
                        assert(d[i] == x);
                    }
                    assert(x == s.last());
                    assert(s[s.len() - 1] == x);
                }
            }
            if s.contains(x) {
                let i = choose|i: int| 0 <= i < s.len() && s[i] == x;
                if i < rest.len() {
                    assert(rest[i] == x);
                    assert(rest.contains(x));
                    assert(d.contains(x));
                    let j = choose|j: int| 0 <= j < d.len() && d[j] == x;
                    assert(distinct(s)[j] == x);
                } else if d.contains(x) {
                    let j = choose|j: int| 0 <= j < d.len() && d[j] == x;
                    assert(distinct(s)[j] == x);
                } else {
                    assert(distinct(s)[d.len() as int] == x);
                }
            }
        }
        if rest.len() > 0 {
            assert(rest[0] == s[0]);
        }
    }
}

/// A sequence without repetition is its own list of first occurrences.
pub proof fn lemma_distinct_of_distinct<T>(s: Seq<T>)
    requires
        s.no_duplicates(),
    ensures
        distinct(s) == s,
    decreases s.len(),
{
    if s.len() > 0 {
        let rest = s.drop_last();
        lemma_distinct_of_distinct(rest);
        if rest.contains(s.last()) {
            let i = choose|i: int| 0 <= i < rest.len() && rest[i] == s.last();
            assert(s[i] == s[s.len() - 1]);
        }
        assert(rest.push(s.last()) =~= s);
    } else {
        assert(s =~= Seq::empty());
    }
}

/// A sequence that repeats one value has that value as its only first
/// occurrence.
pub proof fn lemma_distinct_constant<T>(s: Seq<T>)
    requires
        s.len() > 0,
        forall|i: int| 0 <= i < s.len() ==> #[trigger] s[i] == s[0],
    ensures
        distinct(s) == seq![s[0]],
    decreases s.len(),
{
    let rest = s.drop_last();
    if rest.len() == 0 {
        assert(distinct(rest) =~= Seq::empty());
        assert(distinct(s) =~= seq![s[0]]);
    } else {
        assert(rest[0] == s[0]);
        lemma_distinct_constant(rest);
        assert(distinct(rest)[0] == s.last());
    }
}

/// One more value is a first occurrence exactly if it is new.
pub proof fn lemma_distinct_push<T>(s: Seq<T>, x: T)
    ensures
        distinct(s.push(x)) == if distinct(s).contains(x) {
            distinct(s)
        } else {
            distinct(s).push(x)
        },
{
    assert(s.push(x).drop_last() =~= s);
}

/// The members of a concatenation are the members of its parts.
pub proof fn lemma_concat_contains<T>(n: nat, f: spec_fn(int) -> Seq<T>, x: T)
    ensures
        concat(n, f).contains(x) <==> exists|i: int| 0 <= i < n && (#[trigger] f(i)).contains(x),
    decreases n,
{
    if n > 0 {
        let head = concat((n - 1) as nat, f);
        let tail = f(n - 1);
        lemma_concat_contains((n - 1) as nat, f, x);
        if concat(n, f).contains(x) {
            let k = choose|k: int| 0 <= k < concat(n, f).len() && concat(n, f)[k] == x;
            if k < head.len() {
                assert(head[k] == x);
                let i = choose|i: int| 0 <= i < n - 1 && (#[trigger] f(i)).contains(x);
                assert(f(i).contains(x));
            } else {
                assert(tail[k - head.len()] == x);
                assert(f(n - 1).contains(x));
            }
        }
        if exists|i: int| 0 <= i < n && (#[trigger] f(i)).contains(x) {
            let i = choose|i: int| 0 <= i < n && (#[trigger] f(i)).contains(x);
            if i < n - 1 {
                assert(f(i).contains(x));
                let k = choose|k: int| 0 <= k < head.len() && head[k] == x;
                assert(concat(n, f)[k] == x);
            } else {
                let k = choose|k: int| 0 <= k < tail.len() && tail[k] == x;
                assert(concat(n, f)[head.len() + k] == x);
            }
        }
    } else {
        assert(concat(n, f) =~= Seq::empty());
    }
}

} // verus!
