//! Laws of the store and of membership resolution, stated over the model
//! that the operations' contracts use.
use vstd::prelude::*;

use crate::model::{occurrences, MemberView, StoreModel, TupleView};
use crate::order::{
    lemma_member_order, lemma_membership_order, member_lt, members_sorted, membership_lt,
    memberships_sorted,
};

verus! {

proof fn lemma_occurrences_absent<A>(s: Seq<A>, x: A)
    requires
        !s.contains(x),
    ensures
        occurrences(s, x) == 0,
    decreases s.len(),
{
    if s.len() > 0 {
        assert(!s.drop_last().contains(x)) by {
            if s.drop_last().contains(x) {
                let i = choose|i: int| 0 <= i < s.len() - 1 && s.drop_last()[i] == x;
                assert(s[i] == x);
            }
        }
        lemma_occurrences_absent(s.drop_last(), x);
        assert(s[s.len() - 1] != x);
    }
}

/// A listing sorted in member order holds each of its elements once.
pub proof fn lemma_sorted_members_once(l: Seq<MemberView>, m: MemberView)
    requires
        members_sorted(l),
        l.contains(m),
    ensures
        occurrences(l, m) == 1,
    decreases l.len(),
{
    let rest = l.drop_last();
    let last = l[l.len() - 1];
    assert(members_sorted(rest)) by {
        assert forall|i: int, j: int| 0 <= i < j < rest.len() implies member_lt(#[trigger] rest[i], #[trigger] rest[j]) by {
            assert(member_lt(l[i], l[j]));
        }
    }
    if last == m {
        assert(!rest.contains(m)) by {
            if rest.contains(m) {
                let i = choose|i: int| 0 <= i < rest.len() && rest[i] == m;
                assert(member_lt(l[i], l[l.len() - 1]));
                lemma_member_order(m, m, m);
            }
        }
        lemma_occurrences_absent(rest, m);
    } else {
        let i = choose|i: int| 0 <= i < l.len() && l[i] == m;
        assert(rest[i] == m);
        lemma_sorted_members_once(rest, m);
    }
}

/// A listing sorted in membership order holds each of its elements once.
pub proof fn lemma_sorted_memberships_once(l: Seq<(Seq<char>, Seq<char>)>, x: (Seq<char>, Seq<char>))
    requires
        memberships_sorted(l),
        l.contains(x),
    ensures
        occurrences(l, x) == 1,
    decreases l.len(),
{
    let rest = l.drop_last();
    let last = l[l.len() - 1];
    assert(memberships_sorted(rest)) by {
        assert forall|i: int, j: int| 0 <= i < j < rest.len() implies membership_lt(#[trigger] rest[i], #[trigger] rest[j]) by {
            assert(membership_lt(l[i], l[j]));
        }
    }
    if last == x {
        assert(!rest.contains(x)) by {
            if rest.contains(x) {
                let i = choose|i: int| 0 <= i < rest.len() && rest[i] == x;
                assert(membership_lt(l[i], l[l.len() - 1]));
                lemma_membership_order(x, x, x);
            }
        }
        lemma_occurrences_absent(rest, x);
    } else {
        let i = choose|i: int| 0 <= i < l.len() && l[i] == x;
        assert(rest[i] == x);
        lemma_sorted_memberships_once(rest, x);
    }
}

/// Writing a new fact (`r`, `p`, `m`) under a defined relationship keeps the
/// store valid; afterwards the fact is stored, `m` appears exactly once in
/// the listing of the direct members of (`r`, `p`), and (`r`, `p`) exactly
/// once in the listing of the memberships of `m`.
pub proof fn lemma_write_round_trip(
    s: StoreModel,
    r: Seq<char>,
    p: Seq<char>,
    m: MemberView,
    members: Seq<MemberView>,
    memberships: Seq<(Seq<char>, Seq<char>)>,
)
    requires
        s.valid(),
        s.defined(r),
        !s.has_tuple(r, p, m),
        members_sorted(members),
        members.to_set() == s.add(r, p, m).direct_members(r, p),
        memberships_sorted(memberships),
        memberships.to_set() == s.add(r, p, m).memberships(m),
    ensures
        s.add(r, p, m).valid(),
        s.add(r, p, m).has_tuple(r, p, m),
        occurrences(members, m) == 1,
        occurrences(memberships, (r, p)) == 1,
{
    let t = TupleView { rel: r, object: p, member: m };
    let s2 = s.add(r, p, m);
    let n = s.tuples.len();
    assert(s2.tuples[n as int] == t);
    assert forall|i: int, j: int| 0 <= i < s2.tuples.len() && 0 <= j < s2.tuples.len() && i != j implies s2.tuples[i]
        != s2.tuples[j] by {
        if i == n {
            assert(s.tuples[j] != t);
        } else if j == n {
            assert(s.tuples[i] != t);
        }
    }
    assert(s2.has_tuple(r, p, m));
    assert(s2.direct_members(r, p).contains(m));
    assert(members.to_set().contains(m));
    lemma_sorted_members_once(members, m);
    assert(s2.memberships(m).contains((r, p)));
    assert(memberships.to_set().contains((r, p)));
    lemma_sorted_memberships_once(memberships, (r, p));
}

/// An object that no fact has as its object has no direct members under any
/// relationship: no fact is stored for it and its listing is empty.
pub proof fn lemma_unwritten_object(s: StoreModel, r: Seq<char>, o: Seq<char>, m: MemberView, members: Seq<MemberView>)
    requires
        forall|i: int| 0 <= i < s.tuples.len() ==> (#[trigger] s.tuples[i]).object != o,
        members.to_set() == s.direct_members(r, o),
    ensures
        !s.has_tuple(r, o, m),
        s.direct_members(r, o) == Set::<MemberView>::empty(),
        members.len() == 0,
{
    assert(s.direct_members(r, o) =~= Set::<MemberView>::empty()) by {
        assert forall|x: MemberView| !s.direct_members(r, o).contains(x) by {
            if s.has_tuple(r, o, x) {
                let i = choose|i: int|
                    0 <= i < s.tuples.len() && #[trigger] s.tuples[i] == (TupleView { rel: r, object: o, member: x });
                assert(s.tuples[i].object == o);
            }
        }
    }
    if members.len() > 0 {
        assert(members.to_set().contains(members[0]));
    }
}

/// A user who is a direct member of (`r`, `o`) holds `r` on `o`.
pub proof fn lemma_direct_holds(s: StoreModel, r: Seq<char>, o: Seq<char>, u: Seq<char>)
    requires
        s.has_tuple(r, o, MemberView::User(u)),
    ensures
        s.holds(r, o, u),
{
    s.lemma_reaches_self(r, o);
}

/// Holding a goal that (`r`, `o`) steps to is enough to hold `r` on `o`.
pub proof fn lemma_holds_through_step(s: StoreModel, r: Seq<char>, o: Seq<char>, r2: Seq<char>, o2: Seq<char>, u: Seq<char>)
    requires
        s.step(r, o, r2, o2),
        s.holds(r2, o2, u),
    ensures
        s.holds(r, o, u),
{
    let (r3, o3) = choose|r3: Seq<char>, o3: Seq<char>|
        #[trigger] s.reaches(r2, o2, r3, o3) && s.has_tuple(r3, o3, MemberView::User(u));
    let p = choose|p: Seq<(Seq<char>, Seq<char>)>| #[trigger] s.is_path(p, r2, o2) && p.last() == (r3, o3);
    let q = seq![(r, o)] + p;
    assert forall|i: int| 0 <= i < q.len() - 1 implies #[trigger] s.step(q[i].0, q[i].1, q[i + 1].0, q[i + 1].1) by {
        if i > 0 {
            assert(q[i] == p[i - 1]);
            assert(q[i + 1] == p[i]);
            let k = i - 1;
            assert(s.step(p[k].0, p[k].1, p[k + 1].0, p[k + 1].1));
        }
    }
    assert(s.is_path(q, r, o));
    assert(q.last() == p.last());
    assert(s.reaches(r, o, r3, o3));
}

/// Implication is transitive: when `r3` contains `r2` and `r2` contains
/// `r1`, a direct `r1` member of `o` holds both `r2` and `r3` on `o`.
pub proof fn lemma_implication_transitive(
    s: StoreModel,
    r3: Seq<char>,
    r2: Seq<char>,
    r1: Seq<char>,
    o: Seq<char>,
    u: Seq<char>,
)
    requires
        s.defined(r3),
        s.schema[r3].contained.contains(r2),
        s.defined(r2),
        s.schema[r2].contained.contains(r1),
        s.has_tuple(r1, o, MemberView::User(u)),
    ensures
        s.holds(r2, o, u),
        s.holds(r3, o, u),
{
    lemma_direct_holds(s, r1, o, u);
    lemma_holds_through_step(s, r2, o, r1, o, u);
    lemma_holds_through_step(s, r3, o, r2, o, u);
}

/// Inheritance composes through an edge: when `r` inherits edge
/// relationship `e` and object `o` is an `e` member of container `p`, every
/// user who holds `r` on `p` holds `r` on `o`.
pub proof fn lemma_inheritance_composes(s: StoreModel, r: Seq<char>, e: Seq<char>, p: Seq<char>, o: Seq<char>, u: Seq<char>)
    requires
        s.defined(r),
        s.schema[r].inherited.contains(e),
        s.has_tuple(e, p, MemberView::Object(o)),
        s.holds(r, p, u),
    ensures
        s.holds(r, o, u),
{
    assert(s.inherits_from(r, o, p));
    assert(s.step(r, o, r, p));
    lemma_holds_through_step(s, r, o, r, p, u);
}

/// Implication runs one way: a user whose only facts are direct `low`
/// memberships on `o` does not hold `high` on `o` unless goal (`low`, `o`)
/// is reached from (`high`, `o`).
pub proof fn lemma_no_upward_implication(s: StoreModel, high: Seq<char>, low: Seq<char>, o: Seq<char>, u: Seq<char>)
    requires
        forall|i: int|
            0 <= i < s.tuples.len() && (#[trigger] s.tuples[i]).member == MemberView::User(u) ==> s.tuples[i].rel == low
                && s.tuples[i].object == o,
        !s.reaches(high, o, low, o),
    ensures
        !s.holds(high, o, u),
{
    if s.holds(high, o, u) {
        let (r2, o2) = choose|r2: Seq<char>, o2: Seq<char>|
            #[trigger] s.reaches(high, o, r2, o2) && s.has_tuple(r2, o2, MemberView::User(u));
        let i = choose|i: int|
            0 <= i < s.tuples.len() && #[trigger] s.tuples[i] == (TupleView {
                rel: r2,
                object: o2,
                member: MemberView::User(u),
            });
        assert(s.tuples[i].member == MemberView::User(u));
    }
}

} // verus!
