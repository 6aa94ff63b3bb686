//! The order in which the search meets paths: shorter paths first, and
//! paths of one length in the order in which their pours are tried.
use crate::puzzle::Transfer;
use vstd::prelude::*;

verus! {

/// Among the pours of one state, `a` is tried before `b`: sources are
/// taken in ascending order, and for one source the destinations are.
pub open spec fn tried_before(a: Transfer, b: Transfer) -> bool {
    a.from < b.from || (a.from == b.from && a.to < b.to)
}

/// `p` and `q` agree before position `i`, and there `p` has the pour that
/// is tried first.
pub open spec fn parts_at(p: Seq<Transfer>, q: Seq<Transfer>, i: int) -> bool {
    &&& 0 <= i < p.len()
    &&& i < q.len()
    &&& forall|k: int| 0 <= k < i ==> p[k] == q[k]
    &&& tried_before(p[i], q[i])
}

/// `p` comes before `q`: it is shorter, or it has the same length and at
/// the first position where the two differ its pour is tried first.
pub open spec fn path_before(p: Seq<Transfer>, q: Seq<Transfer>) -> bool {
    p.len() < q.len() || (p.len() == q.len() && exists|i: int| parts_at(p, q, i))
}

/// `p` is `q` or comes before it.
pub open spec fn path_not_after(p: Seq<Transfer>, q: Seq<Transfer>) -> bool {
    p == q || path_before(p, q)
}

/// The order is transitive.
pub proof fn lemma_path_before_transitive(p: Seq<Transfer>, q: Seq<Transfer>, r: Seq<Transfer>)
    requires
        path_before(p, q),
        path_before(q, r),
    ensures
        path_before(p, r),
{
    if p.len() == q.len() && q.len() == r.len() {
        let i = choose|i: int| parts_at(p, q, i);
        let j = choose|j: int| parts_at(q, r, j);
        if i <= j {
            assert(parts_at(p, r, i));
        } else {
            assert(parts_at(p, r, j));
        }
    }
}

/// Extending two paths by one pour each keeps their order.
pub proof fn lemma_path_before_push(p: Seq<Transfer>, a: Transfer, q: Seq<Transfer>, b: Transfer)
    requires
        path_before(p, q),
    ensures
        path_before(p.push(a), q.push(b)),
{
    if p.len() == q.len() {
        let i = choose|i: int| parts_at(p, q, i);
        assert(parts_at(p.push(a), q.push(b), i));
    }
}

/// Extending one path by two pours orders the results as the pours are.
pub proof fn lemma_path_before_last(p: Seq<Transfer>, a: Transfer, b: Transfer)
    requires
        tried_before(a, b),
    ensures
        path_before(p.push(a), p.push(b)),
{
    assert(parts_at(p.push(a), p.push(b), p.len() as int));
}

} // verus!
