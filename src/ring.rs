//! Facts about clock rings held as sequences of slab indices, head first.
use vstd::prelude::*;

verus! {

/// The ring after its element at position `p` has been taken out.
pub proof fn lemma_remove_at(s: Seq<usize>, p: int)
    requires
        0 <= p < s.len(),
        s.no_duplicates(),
    ensures
        s.remove(p).no_duplicates(),
        s.remove(p).len() == s.len() - 1,
        forall|x: usize| s.remove(p).contains(x) <==> (s.contains(x) && x != s[p]),
{
    let r = s.remove(p);
    assert forall|x: usize| r.contains(x) <==> (s.contains(x) && x != s[p]) by {
        if r.contains(x) {
            let j = choose|j: int| 0 <= j < r.len() && r[j] == x;
            if j < p {
                assert(s[j] == x);
            } else {
                assert(s[j + 1] == x);
            }
        }
        if s.contains(x) && x != s[p] {
            let j = choose|j: int| 0 <= j < s.len() && s[j] == x;
            if j < p {
                assert(r[j] == x);
            } else {
                assert(j != p);
                assert(r[j - 1] == x);
            }
        }
    }
}

/// Appending an element that the ring does not hold keeps it free of duplicates.
pub proof fn lemma_push_fresh(s: Seq<usize>, x: usize)
    requires
        s.no_duplicates(),
        !s.contains(x),
    ensures
        s.push(x).no_duplicates(),
        forall|y: usize| s.push(x).contains(y) <==> (s.contains(y) || y == x),
{
    let t = s.push(x);
    assert forall|y: usize| t.contains(y) <==> (s.contains(y) || y == x) by {
        if t.contains(y) {
            let j = choose|j: int| 0 <= j < t.len() && t[j] == y;
            if j < s.len() {
                assert(s[j] == y);
            }
        }
        if s.contains(y) {
            let j = choose|j: int| 0 <= j < s.len() && s[j] == y;
            assert(t[j] == y);
        }
        if y == x {
            assert(t[s.len() as int] == y);
        }
    }
}

/// Moving the head to the back keeps the ring's members and its freedom from duplicates.
pub proof fn lemma_rotate(s: Seq<usize>)
    requires
        s.len() > 0,
        s.no_duplicates(),
    ensures
        s.remove(0).push(s[0]).no_duplicates(),
        s.remove(0).push(s[0]).len() == s.len(),
        forall|x: usize| s.remove(0).push(s[0]).contains(x) <==> s.contains(x),
{
    lemma_remove_at(s, 0);
    lemma_push_fresh(s.remove(0), s[0]);
}

} // verus!
