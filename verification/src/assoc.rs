//! Association sequences with strictly ascending integer keys.
//!
//! The graph stores all of its indices as vectors of key/value pairs kept
//! sorted by key. Sortedness makes every key occur at most once, makes
//! lookups unambiguous, and gives the JSON codec its deterministic
//! ascending-id order for free.

use vstd::prelude::*;

verus! {

/// The keys of an association sequence, in storage order.
pub open spec fn akeys<V>(s: Seq<(usize, V)>) -> Seq<usize> {
    s.map_values(|p: (usize, V)| p.0)
}

/// Strictly ascending: every key is smaller than all later ones.
pub open spec fn sorted_keys(ks: Seq<usize>) -> bool {
    forall|i: int, j: int| 0 <= i < j < ks.len() ==> ks[i] < ks[j]
}

/// Whether the association sequence holds an entry for `k`.
pub open spec fn ahas<V>(s: Seq<(usize, V)>, k: usize) -> bool {
    exists|i: int| 0 <= i < s.len() && (#[trigger] s[i]).0 == k
}

/// The position of the entry for `k`; unique when the keys are sorted.
pub open spec fn aidx<V>(s: Seq<(usize, V)>, k: usize) -> int {
    choose|i: int| 0 <= i < s.len() && (#[trigger] s[i]).0 == k
}

/// The value stored under `k`.
pub open spec fn aget<V>(s: Seq<(usize, V)>, k: usize) -> V {
    s[aidx(s, k)].1
}

/// Where each element of an insertion lands.
pub proof fn lemma_insert_index<A>(s: Seq<A>, i: int, x: A, j: int)
    requires
        0 <= i <= s.len(),
        0 <= j < s.len() + 1,
    ensures
        s.insert(i, x)[j] == if j < i {
            s[j]
        } else if j == i {
            x
        } else {
            s[j - 1]
        },
{
    s.insert_ensures(i, x);
    if j > i {
        assert(s.insert(i, x)[(j - 1) + 1] == s[j - 1]);
    }
}

/// Where each element of a removal comes from.
pub proof fn lemma_remove_index<A>(s: Seq<A>, i: int, j: int)
    requires
        0 <= i < s.len(),
        0 <= j < s.len() - 1,
    ensures
        s.remove(i)[j] == if j < i {
            s[j]
        } else {
            s[j + 1]
        },
{
    s.remove_ensures(i);
    if j >= i {
        assert(s.remove(i)[j] == s[j + 1]);
    }
}

/// With sorted keys, an entry's position is the one `aidx` names.
pub proof fn lemma_aidx<V>(s: Seq<(usize, V)>, k: usize, i: int)
    requires
        sorted_keys(akeys(s)),
        0 <= i < s.len(),
        s[i].0 == k,
    ensures
        ahas(s, k),
        aidx(s, k) == i,
        aget(s, k) == s[i].1,
{
    assert(ahas(s, k));
    let j = aidx(s, k);
    assert(0 <= j < s.len() && s[j].0 == k);
    if i != j {
        assert(akeys(s)[i] == k);
        assert(akeys(s)[j] == k);
        if i < j {
            assert(akeys(s)[i] < akeys(s)[j]);
        } else {
            assert(akeys(s)[j] < akeys(s)[i]);
        }
        assert(false);
    }
}

/// Linear search for `k`; the index returned is the entry's position.
pub fn afind<V>(v: &Vec<(usize, V)>, k: usize) -> (r: Option<usize>)
    ensures
        match r {
            Some(i) => i < v.len() && v@[i as int].0 == k,
            None => !ahas(v@, k),
        },
{
    let mut i: usize = 0;
    while i < v.len()
        invariant
            i <= v.len(),
            forall|j: int| 0 <= j < i ==> (#[trigger] v@[j]).0 != k,
        decreases v.len() - i,
    {
        if v[i].0 == k {
            return Some(i);
        }
        i += 1;
    }
    None
}

/// Inserts a fresh key at its sorted position.
#[verifier::loop_isolation(false)]
pub fn ainsert<V>(v: &mut Vec<(usize, V)>, k: usize, val: V)
    requires
        sorted_keys(akeys(old(v)@)),
        !ahas(old(v)@, k),
    ensures
        sorted_keys(akeys(final(v)@)),
        final(v)@.len() == old(v)@.len() + 1,
        forall|k2: usize| #[trigger] ahas(final(v)@, k2) <==> ahas(old(v)@, k2) || k2 == k,
        ahas(final(v)@, k),
        aget(final(v)@, k) == val,
        forall|k2: usize| k2 != k && #[trigger] ahas(old(v)@, k2) ==> aget(final(v)@, k2) == aget(
            old(v)@,
            k2,
        ),
{
    let ghost s0 = v@;
    let mut i: usize = 0;
    while i < v.len() && v[i].0 < k
        invariant
            i <= v.len(),
            v@ == s0,
            forall|j: int| 0 <= j < i ==> (#[trigger] s0[j]).0 < k,
        decreases v.len() - i,
    {
        i += 1;
    }
    proof {
        assert forall|j: int| i <= j < s0.len() implies (#[trigger] s0[j]).0 > k by {
            assert(s0[j].0 != k);
            if j > i {
                assert(akeys(s0)[i as int] < akeys(s0)[j]);
                assert(s0[i as int].0 != k);
            }
        }
    }
    v.insert(i, (k, val));
    proof {
        let s1 = v@;
        assert(s1 == s0.insert(i as int, (k, val)));
        assert forall|j: int| 0 <= j < s1.len() implies s1[j] == (if j < i {
            s0[j]
        } else if j == i {
            (k, val)
        } else {
            s0[j - 1]
        }) by {
            lemma_insert_index(s0, i as int, (k, val), j);
        }
        assert forall|a: int, b: int| 0 <= a < b < akeys(s1).len() implies akeys(s1)[a] < akeys(
            s1,
        )[b] by {
            assert(akeys(s1)[a] == s1[a].0);
            assert(akeys(s1)[b] == s1[b].0);
            if a < i && b < i {
                assert(akeys(s0)[a] < akeys(s0)[b]);
            } else if a > i && b > i {
                assert(akeys(s0)[a - 1] < akeys(s0)[b - 1]);
            } else if a < i && b > i {
                assert(s0[a].0 < k);
                assert(s0[b - 1].0 > k);
            }
        }
        lemma_aidx(s1, k, i as int);
        assert forall|k2: usize| #[trigger] ahas(s1, k2) implies ahas(s0, k2) || k2 == k by {
            if k2 != k {
                let j = choose|j: int| 0 <= j < s1.len() && (#[trigger] s1[j]).0 == k2;
                if j < i {
                    assert(s0[j].0 == k2);
                } else {
                    assert(s0[j - 1].0 == k2);
                }
            }
        }
        assert forall|k2: usize| ahas(s0, k2) implies #[trigger] ahas(s1, k2) by {
            let j = choose|j: int| 0 <= j < s0.len() && (#[trigger] s0[j]).0 == k2;
            if j < i {
                assert(s1[j].0 == k2);
            } else {
                assert(s1[j + 1].0 == k2);
            }
        }
        assert forall|k2: usize| k2 != k && #[trigger] ahas(s0, k2) implies aget(s1, k2) == aget(
            s0,
            k2,
        ) by {
            let j = choose|j: int| 0 <= j < s0.len() && (#[trigger] s0[j]).0 == k2;
            lemma_aidx(s0, k2, j);
            if j < i {
                lemma_aidx(s1, k2, j);
            } else {
                lemma_aidx(s1, k2, j + 1);
            }
        }
    }
}

/// Removes the entry for `k` and hands its value back.
#[verifier::loop_isolation(false)]
pub fn atake<V>(v: &mut Vec<(usize, V)>, k: usize) -> (r: V)
    requires
        sorted_keys(akeys(old(v)@)),
        ahas(old(v)@, k),
    ensures
        r == aget(old(v)@, k),
        sorted_keys(akeys(final(v)@)),
        final(v)@.len() == old(v)@.len() - 1,
        forall|k2: usize| #[trigger] ahas(final(v)@, k2) <==> ahas(old(v)@, k2) && k2 != k,
        forall|k2: usize| k2 != k && #[trigger] ahas(old(v)@, k2) ==> aget(final(v)@, k2) == aget(
            old(v)@,
            k2,
        ),
{
    let ghost s0 = v@;
    let mut i: usize = 0;
    while i < v.len() && v[i].0 != k
        invariant
            i <= v.len(),
            v@ == s0,
            forall|j: int| 0 <= j < i ==> (#[trigger] s0[j]).0 != k,
        decreases v.len() - i,
    {
        i += 1;
    }
    proof {
        if i >= s0.len() {
            assert(forall|j: int| 0 <= j < s0.len() ==> (#[trigger] s0[j]).0 != k);
            assert(false);
        }
        lemma_aidx(s0, k, i as int);
    }
    let entry = v.remove(i);
    proof {
        let s1 = v@;
        assert(s1 == s0.remove(i as int));
        assert forall|j: int| 0 <= j < s1.len() implies s1[j] == (if j < i {
            s0[j]
        } else {
            s0[j + 1]
        }) by {
            lemma_remove_index(s0, i as int, j);
        }
        assert forall|a: int, b: int| 0 <= a < b < akeys(s1).len() implies akeys(s1)[a] < akeys(
            s1,
        )[b] by {
            assert(akeys(s1)[a] == s1[a].0);
            assert(akeys(s1)[b] == s1[b].0);
            let pa: int = if a < i { a } else { a + 1 };
            let pb: int = if b < i { b } else { b + 1 };
            assert(akeys(s0)[pa] < akeys(s0)[pb]);
        }
        assert forall|k2: usize| #[trigger] ahas(s1, k2) implies ahas(s0, k2) && k2 != k by {
            let j = choose|j: int| 0 <= j < s1.len() && (#[trigger] s1[j]).0 == k2;
            let p: int = if j < i { j } else { j + 1 };
            assert(s0[p].0 == k2);
            lemma_aidx(s0, k2, p);
        }
        assert forall|k2: usize| ahas(s0, k2) && k2 != k implies #[trigger] ahas(s1, k2) by {
            let j = choose|j: int| 0 <= j < s0.len() && (#[trigger] s0[j]).0 == k2;
            lemma_aidx(s0, k2, j);
            if j < i {
                assert(s1[j].0 == k2);
            } else {
                assert(s1[j - 1].0 == k2);
            }
        }
        assert forall|k2: usize| k2 != k && #[trigger] ahas(s0, k2) implies aget(s1, k2) == aget(
            s0,
            k2,
        ) by {
            let j = choose|j: int| 0 <= j < s0.len() && (#[trigger] s0[j]).0 == k2;
            lemma_aidx(s0, k2, j);
            if j < i {
                lemma_aidx(s1, k2, j);
            } else {
                lemma_aidx(s1, k2, j - 1);
            }
        }
    }
    entry.1
}

/// Membership test on a sorted id set.
pub fn sset_contains(v: &Vec<usize>, k: usize) -> (r: bool)
    ensures
        r == v@.contains(k),
{
    let mut i: usize = 0;
    while i < v.len()
        invariant
            i <= v.len(),
            forall|j: int| 0 <= j < i ==> v@[j] != k,
        decreases v.len() - i,
    {
        if v[i] == k {
            return true;
        }
        i += 1;
    }
    false
}

/// Inserts a fresh id into a sorted id set.
#[verifier::loop_isolation(false)]
pub fn sset_insert(v: &mut Vec<usize>, k: usize)
    requires
        sorted_keys(old(v)@),
        !old(v)@.contains(k),
    ensures
        sorted_keys(final(v)@),
        final(v)@.len() == old(v)@.len() + 1,
        forall|k2: usize| #[trigger] final(v)@.contains(k2) <==> old(v)@.contains(k2) || k2 == k,
{
    let ghost s0 = v@;
    let mut i: usize = 0;
    while i < v.len() && v[i] < k
        invariant
            i <= v.len(),
            v@ == s0,
            forall|j: int| 0 <= j < i ==> s0[j] < k,
        decreases v.len() - i,
    {
        i += 1;
    }
    proof {
        assert forall|j: int| i <= j < s0.len() implies s0[j] > k by {
            assert(s0[j] != k);
            if j > i {
                assert(s0[i as int] < s0[j]);
                assert(s0[i as int] != k);
            }
        }
    }
    v.insert(i, k);
    proof {
        let s1 = v@;
        assert(s1 == s0.insert(i as int, k));
        assert forall|j: int| 0 <= j < s1.len() implies s1[j] == (if j < i {
            s0[j]
        } else if j == i {
            k
        } else {
            s0[j - 1]
        }) by {
            lemma_insert_index(s0, i as int, k, j);
        }
        assert forall|a: int, b: int| 0 <= a < b < s1.len() implies s1[a] < s1[b] by {}
        assert(s1[i as int] == k);
        assert forall|k2: usize| #[trigger] s1.contains(k2) implies s0.contains(k2) || k2 == k by {
            if k2 != k {
                let j = choose|j: int| 0 <= j < s1.len() && s1[j] == k2;
                if j < i {
                    assert(s0[j] == k2);
                } else {
                    assert(s0[j - 1] == k2);
                }
            }
        }
        assert forall|k2: usize| s0.contains(k2) implies #[trigger] s1.contains(k2) by {
            let j = choose|j: int| 0 <= j < s0.len() && s0[j] == k2;
            if j < i {
                assert(s1[j] == k2);
            } else {
                assert(s1[j + 1] == k2);
            }
        }
    }
}

/// Removes an id from a sorted id set.
#[verifier::loop_isolation(false)]
pub fn sset_remove(v: &mut Vec<usize>, k: usize)
    requires
        sorted_keys(old(v)@),
        old(v)@.contains(k),
    ensures
        sorted_keys(final(v)@),
        final(v)@.len() == old(v)@.len() - 1,
        forall|k2: usize| #[trigger] final(v)@.contains(k2) <==> old(v)@.contains(k2) && k2 != k,
{
    let ghost s0 = v@;
    let mut i: usize = 0;
    while i < v.len() && v[i] != k
        invariant
            i <= v.len(),
            v@ == s0,
            forall|j: int| 0 <= j < i ==> s0[j] != k,
        decreases v.len() - i,
    {
        i += 1;
    }
    proof {
        if i >= s0.len() {
            assert(forall|j: int| 0 <= j < s0.len() ==> s0[j] != k);
            assert(false);
        }
        assert forall|j: int| 0 <= j < s0.len() && j != i implies s0[j] != k by {
            if j > i {
                assert(s0[i as int] < s0[j]);
            }
        }
    }
    v.remove(i);
    proof {
        let s1 = v@;
        assert(s1 == s0.remove(i as int));
        assert forall|j: int| 0 <= j < s1.len() implies s1[j] == (if j < i {
            s0[j]
        } else {
            s0[j + 1]
        }) by {
            lemma_remove_index(s0, i as int, j);
        }
        assert forall|a: int, b: int| 0 <= a < b < s1.len() implies s1[a] < s1[b] by {}
        assert forall|k2: usize| #[trigger] s1.contains(k2) implies s0.contains(k2) && k2 != k by {
            let j = choose|j: int| 0 <= j < s1.len() && s1[j] == k2;
            let p: int = if j < i { j } else { j + 1 };
            assert(s0[p] == k2);
        }
        assert forall|k2: usize| s0.contains(k2) && k2 != k implies #[trigger] s1.contains(k2) by {
            let j = choose|j: int| 0 <= j < s0.len() && s0[j] == k2;
            if j < i {
                assert(s1[j] == k2);
            } else {
                assert(s1[j - 1] == k2);
            }
        }
    }
}

} // verus!
