use vstd::prelude::*;

verus! {

/// `k` is the first position of `x` in `s`.
pub open spec fn is_first<A>(s: Seq<A>, x: A, k: int) -> bool {
    &&& 0 <= k < s.len()
    &&& s[k] == x
    &&& forall|j: int| 0 <= j < k ==> s[j] != x
}

/// The first position of `x` in `s`, or -1 when `s` does not hold `x`.
pub open spec fn first_index<A>(s: Seq<A>, x: A) -> int {
    if exists|k: int| is_first(s, x, k) {
        choose|k: int| is_first(s, x, k)
    } else {
        -1
    }
}

/// `s` with every occurrence of `x` taken out, the rest in order.
pub open spec fn without<A>(s: Seq<A>, x: A) -> Seq<A>
    decreases s.len(),
{
    if s.len() == 0 {
        s
    } else {
        let rest = without(s.drop_last(), x);
        if s.last() == x {
            rest
        } else {
            rest.push(s.last())
        }
    }
}

pub proof fn lemma_first_index_found<A>(s: Seq<A>, x: A, k: int)
    requires
        is_first(s, x, k),
    ensures
        first_index(s, x) == k,
{
    let c = choose|k: int| is_first(s, x, k);
    assert(is_first(s, x, c));
    if c < k {
        assert(s[c] != x);
    } else if k < c {
        assert(s[k] != x);
    }
}

pub proof fn lemma_first_index_absent<A>(s: Seq<A>, x: A)
    requires
        forall|j: int| 0 <= j < s.len() ==> s[j] != x,
    ensures
        first_index(s, x) == -1,
{
}

proof fn lemma_least_position<A>(s: Seq<A>, x: A, k: int)
    requires
        0 <= k < s.len(),
        s[k] == x,
    ensures
        exists|m: int| is_first(s, x, m),
    decreases k,
{
    if exists|j: int| 0 <= j < k && s[j] == x {
        let j = choose|j: int| 0 <= j < k && s[j] == x;
        lemma_least_position(s, x, j);
    } else {
        assert(is_first(s, x, k));
    }
}

pub proof fn lemma_first_index_result<A>(s: Seq<A>, x: A)
    ensures
        first_index(s, x) == -1 || is_first(s, x, first_index(s, x)),
        first_index(s, x) == -1 <==> !s.contains(x),
{
    if s.contains(x) {
        let k = choose|k: int| 0 <= k < s.len() && s[k] == x;
        lemma_least_position(s, x, k);
    }
}

/// Nothing equal to `x` is left by `without`, and everything else stays.
pub proof fn lemma_without_contains<A>(s: Seq<A>, x: A, y: A)
    ensures
        without(s, x).contains(y) <==> (s.contains(y) && y != x),
    decreases s.len(),
{
    if s.len() > 0 {
        lemma_without_contains(s.drop_last(), x, y);
        let rest = without(s.drop_last(), x);
        if s.contains(y) && y != x {
            let k = choose|k: int| 0 <= k < s.len() && s[k] == y;
            if k < s.len() - 1 {
                assert(s.drop_last()[k] == y);
                assert(rest.contains(y));
                let j = choose|j: int| 0 <= j < rest.len() && rest[j] == y;
                assert(without(s, x)[j] == y);
            } else {
                assert(without(s, x) == rest.push(y));
                assert(without(s, x)[rest.len() as int] == y);
            }
        }
        if without(s, x).contains(y) {
            let k = choose|k: int| 0 <= k < without(s, x).len() && without(s, x)[k] == y;
            if s.last() != x && k == rest.len() {
                assert(s[s.len() - 1] == y);
            } else {
                assert(rest[k] == y);
                let j = choose|j: int| 0 <= j < s.drop_last().len() && s.drop_last()[j] == y;
                assert(s[j] == y);
            }
        }
    }
}

/// Taking out a value that is absent changes nothing.
pub proof fn lemma_without_absent<A>(s: Seq<A>, x: A)
    requires
        !s.contains(x),
    ensures
        without(s, x) == s,
    decreases s.len(),
{
    if s.len() > 0 {
        assert(!s.drop_last().contains(x)) by {
            if s.drop_last().contains(x) {
                let k = choose|k: int| 0 <= k < s.drop_last().len() && s.drop_last()[k] == x;
                assert(s[k] == x);
            }
        }
        lemma_without_absent(s.drop_last(), x);
        assert(s.last() != x);
        assert(s.drop_last().push(s.last()) =~= s);
    }
}

/// Taking values out keeps a list free of repeats.
pub proof fn lemma_without_no_duplicates<A>(s: Seq<A>, x: A)
    requires
        s.no_duplicates(),
    ensures
        without(s, x).no_duplicates(),
    decreases s.len(),
{
    if s.len() > 0 {
        let d = s.drop_last();
        assert(d.no_duplicates()) by {
            assert forall|i: int, j: int| 0 <= i < d.len() && 0 <= j < d.len() && i != j implies d[i]
                != d[j] by {
                assert(d[i] == s[i] && d[j] == s[j]);
            }
        }
        lemma_without_no_duplicates(d, x);
        if s.last() != x {
            lemma_without_contains(d, x, s.last());
            assert(!d.contains(s.last())) by {
                if d.contains(s.last()) {
                    let k = choose|k: int| 0 <= k < d.len() && d[k] == s.last();
                    assert(s[k] == s[s.len() - 1]);
                }
            }
            let w = without(d, x);
            assert forall|i: int, j: int|
                0 <= i < w.len() + 1 && 0 <= j < w.len() + 1 && i != j implies w.push(
                s.last(),
            )[i] != w.push(s.last())[j] by {
                if i == w.len() {
                    assert(w.contains(w[j]));
                } else if j == w.len() {
                    assert(w.contains(w[i]));
                }
            }
        }
    }
}

/// Adding a value that is not there yet keeps a list free of repeats,
/// whether it goes last, at a position, or in place of an entry.
pub proof fn lemma_fresh_no_duplicates<A>(d: Seq<A>, x: A)
    requires
        d.no_duplicates(),
        !d.contains(x),
    ensures
        d.push(x).no_duplicates(),
        forall|k: int| 0 <= k <= d.len() ==> (#[trigger] d.insert(k, x)).no_duplicates(),
        forall|k: int| 0 <= k < d.len() ==> (#[trigger] d.update(k, x)).no_duplicates(),
{
    assert forall|i: int, j: int|
        0 <= i < d.len() + 1 && 0 <= j < d.len() + 1 && i != j implies d.push(x)[i] != d.push(x)[j] by {
        if i == d.len() {
            assert(d.contains(d[j]));
        } else if j == d.len() {
            assert(d.contains(d[i]));
        }
    }
    assert forall|k: int| 0 <= k <= d.len() implies (#[trigger] d.insert(k, x)).no_duplicates() by {
        let e = d.insert(k, x);
        assert forall|i: int, j: int| 0 <= i < e.len() && 0 <= j < e.len() && i != j implies e[i]
            != e[j] by {
            let di = if i < k { i } else { i - 1 };
            let dj = if j < k { j } else { j - 1 };
            if i == k {
                assert(e[j] == d[dj]);
                assert(d.contains(d[dj]));
            } else if j == k {
                assert(e[i] == d[di]);
                assert(d.contains(d[di]));
            } else {
                assert(e[i] == d[di] && e[j] == d[dj]);
            }
        }
    }
    assert forall|k: int| 0 <= k < d.len() implies (#[trigger] d.update(k, x)).no_duplicates() by {
        let e = d.update(k, x);
        assert forall|i: int, j: int| 0 <= i < e.len() && 0 <= j < e.len() && i != j implies e[i]
            != e[j] by {
            if i == k {
                assert(d.contains(d[j]));
            } else if j == k {
                assert(d.contains(d[i]));
            }
        }
    }
}

/// `after` is `before` with `x` gone: `x` is absent and every other value
/// is present exactly where it was present before.
pub open spec fn detached<A>(before: Seq<A>, after: Seq<A>, x: A) -> bool {
    &&& !after.contains(x)
    &&& forall|y: A| y != x ==> (#[trigger] after.contains(y) <==> before.contains(y))
}

pub proof fn lemma_without_detached<A>(s: Seq<A>, x: A)
    ensures
        detached(s, without(s, x), x),
{
    lemma_without_contains(s, x, x);
    assert forall|y: A| y != x implies (#[trigger] without(s, x).contains(y) <==> s.contains(y)) by {
        lemma_without_contains(s, x, y);
    }
}

} // verus!
