//! The order in which members and memberships are listed: names compare
//! character by character (the order of `str`), objects come before users,
//! and memberships compare by relationship name, then by object name.
use vstd::prelude::*;
use vstd::string::StrSliceExecFns;

use crate::ids::{Member, Membership};
use crate::model::MemberView;

verus! {

/// `a` comes before `b`: at the first position where they differ, `a` has
/// the smaller character, or `a` is a proper prefix of `b`.
pub open spec fn name_lt(a: Seq<char>, b: Seq<char>) -> bool
    decreases a.len(),
{
    if a.len() == 0 {
        b.len() > 0
    } else if b.len() == 0 {
        false
    } else if a[0] != b[0] {
        (a[0] as u32) < (b[0] as u32)
    } else {
        name_lt(a.drop_first(), b.drop_first())
    }
}

/// Objects before users; members of one kind by name.
pub open spec fn member_lt(a: MemberView, b: MemberView) -> bool {
    match (a, b) {
        (MemberView::Object(x), MemberView::Object(y)) => name_lt(x, y),
        (MemberView::Object(_), MemberView::User(_)) => true,
        (MemberView::User(_), MemberView::Object(_)) => false,
        (MemberView::User(x), MemberView::User(y)) => name_lt(x, y),
    }
}

/// By relationship name, then by object name.
pub open spec fn membership_lt(a: (Seq<char>, Seq<char>), b: (Seq<char>, Seq<char>)) -> bool {
    name_lt(a.0, b.0) || (a.0 == b.0 && name_lt(a.1, b.1))
}

/// Each element of `s` comes before the next in member order.
pub open spec fn members_sorted(s: Seq<MemberView>) -> bool {
    forall|i: int, j: int| 0 <= i < j < s.len() ==> member_lt(#[trigger] s[i], #[trigger] s[j])
}

/// Each element of `s` comes before the next in membership order.
pub open spec fn memberships_sorted(s: Seq<(Seq<char>, Seq<char>)>) -> bool {
    forall|i: int, j: int| 0 <= i < j < s.len() ==> membership_lt(#[trigger] s[i], #[trigger] s[j])
}

pub proof fn lemma_name_lt_irreflexive(a: Seq<char>)
    ensures
        !name_lt(a, a),
    decreases a.len(),
{
    if a.len() > 0 {
        lemma_name_lt_irreflexive(a.drop_first());
    }
}

pub proof fn lemma_name_lt_transitive(a: Seq<char>, b: Seq<char>, c: Seq<char>)
    requires
        name_lt(a, b),
        name_lt(b, c),
    ensures
        name_lt(a, c),
    decreases a.len(),
{
    if a.len() > 0 && b.len() > 0 && c.len() > 0 {
        if a[0] == b[0] && b[0] == c[0] {
            lemma_name_lt_transitive(a.drop_first(), b.drop_first(), c.drop_first());
        }
    }
}

pub proof fn lemma_name_lt_total(a: Seq<char>, b: Seq<char>)
    requires
        a != b,
    ensures
        name_lt(a, b) || name_lt(b, a),
    decreases a.len(),
{
    if a.len() > 0 && b.len() > 0 && a[0] == b[0] {
        if a.drop_first() == b.drop_first() {
            assert(a =~= seq![a[0]] + a.drop_first());
            assert(b =~= seq![b[0]] + b.drop_first());
        }
        lemma_name_lt_total(a.drop_first(), b.drop_first());
    } else if a.len() > 0 && b.len() > 0 {
        let (x, y) = (a[0], b[0]);
        vstd::utf8::char_u32_cast(x, x as u32);
        vstd::utf8::char_u32_cast(y, y as u32);
    } else if a.len() == 0 && b.len() == 0 {
        assert(a =~= b);
    }
}

/// Member order is a strict total order.
pub proof fn lemma_member_order(a: MemberView, b: MemberView, c: MemberView)
    ensures
        !member_lt(a, a),
        member_lt(a, b) && member_lt(b, c) ==> member_lt(a, c),
        a != b ==> member_lt(a, b) || member_lt(b, a),
{
    match a {
        MemberView::Object(x) | MemberView::User(x) => lemma_name_lt_irreflexive(x),
    }
    match (a, b, c) {
        (MemberView::Object(x), MemberView::Object(y), MemberView::Object(z)) | (
            MemberView::User(x),
            MemberView::User(y),
            MemberView::User(z),
        ) => {
            if name_lt(x, y) && name_lt(y, z) {
                lemma_name_lt_transitive(x, y, z);
            }
        },
        _ => {},
    }
    match (a, b) {
        (MemberView::Object(x), MemberView::Object(y)) | (MemberView::User(x), MemberView::User(y)) => {
            if x != y {
                lemma_name_lt_total(x, y);
            }
        },
        _ => {},
    }
}

/// Membership order is a strict total order.
pub proof fn lemma_membership_order(a: (Seq<char>, Seq<char>), b: (Seq<char>, Seq<char>), c: (Seq<char>, Seq<char>))
    ensures
        !membership_lt(a, a),
        membership_lt(a, b) && membership_lt(b, c) ==> membership_lt(a, c),
        a != b ==> membership_lt(a, b) || membership_lt(b, a),
{
    lemma_name_lt_irreflexive(a.0);
    lemma_name_lt_irreflexive(a.1);
    if membership_lt(a, b) && membership_lt(b, c) {
        if name_lt(a.0, b.0) && name_lt(b.0, c.0) {
            lemma_name_lt_transitive(a.0, b.0, c.0);
        }
        if a.0 == b.0 && b.0 == c.0 && name_lt(a.1, b.1) && name_lt(b.1, c.1) {
            lemma_name_lt_transitive(a.1, b.1, c.1);
        }
    }
    if a != b {
        if a.0 != b.0 {
            lemma_name_lt_total(a.0, b.0);
        } else {
            lemma_name_lt_total(a.1, b.1);
        }
    }
}

proof fn lemma_name_lt_skip(a: Seq<char>, b: Seq<char>, i: int)
    requires
        0 <= i <= a.len(),
        i <= b.len(),
        a.take(i) == b.take(i),
    ensures
        name_lt(a, b) == name_lt(a.skip(i), b.skip(i)),
    decreases i,
{
    if i > 0 {
        assert(a[0] == a.take(i)[0]);
        assert(b[0] == b.take(i)[0]);
        assert(a.drop_first().take(i - 1) =~= a.take(i).drop_first());
        assert(b.drop_first().take(i - 1) =~= b.take(i).drop_first());
        lemma_name_lt_skip(a.drop_first(), b.drop_first(), i - 1);
        assert(a.drop_first().skip(i - 1) =~= a.skip(i));
        assert(b.drop_first().skip(i - 1) =~= b.skip(i));
    } else {
        assert(a.skip(0) =~= a);
        assert(b.skip(0) =~= b);
    }
}

/// Whether name `a` comes before name `b`.
pub fn name_less(a: &String, b: &String) -> (r: bool)
    ensures
        r == name_lt(a@, b@),
{
    let sa = a.as_str();
    let sb = b.as_str();
    let la: usize = sa.unicode_len();
    let lb: usize = sb.unicode_len();
    let mut i: usize = 0;
    while i < la && i < lb
        invariant
            sa@ == a@,
            sb@ == b@,
            la == a@.len(),
            lb == b@.len(),
            i <= la,
            i <= lb,
            a@.take(i as int) == b@.take(i as int),
        decreases la - i,
    {
        let ca = sa.get_char(i);
        let cb = sb.get_char(i);
        if ca != cb {
            proof {
                lemma_name_lt_skip(a@, b@, i as int);
                assert(a@.skip(i as int)[0] == ca);
                assert(b@.skip(i as int)[0] == cb);
            }
            return (ca as u32) < (cb as u32);
        }
        assert(a@.take(i + 1) =~= a@.take(i as int).push(ca));
        assert(b@.take(i + 1) =~= b@.take(i as int).push(cb));
        i = i + 1;
    }
    proof {
        lemma_name_lt_skip(a@, b@, i as int);
    }
    i == la && i < lb
}

/// Whether member `a` comes before member `b`.
pub fn member_less(a: &Member, b: &Member) -> (r: bool)
    ensures
        r == member_lt(a@, b@),
{
    match (a, b) {
        (Member::Object(x), Member::Object(y)) => name_less(&x.name, &y.name),
        (Member::Object(_), Member::User(_)) => true,
        (Member::User(_), Member::Object(_)) => false,
        (Member::User(x), Member::User(y)) => name_less(&x.name, &y.name),
    }
}

/// Whether membership `a` comes before membership `b`.
pub fn membership_less(a: &Membership, b: &Membership) -> (r: bool)
    ensures
        r == membership_lt(a@, b@),
{
    if name_less(&a.rid.name, &b.rid.name) {
        true
    } else if a.rid.name == b.rid.name {
        name_less(&a.object.name, &b.object.name)
    } else {
        false
    }
}

/// The views of `v`'s members.
pub open spec fn member_views(v: Seq<Member>) -> Seq<MemberView> {
    v.map_values(|x: Member| x@)
}

/// The views of `v`'s memberships.
pub open spec fn membership_views(v: Seq<Membership>) -> Seq<(Seq<char>, Seq<char>)> {
    v.map_values(|x: Membership| x@)
}

/// Inserts `m` into the sorted list `out` at its place.
pub fn insert_member(out: &mut Vec<Member>, m: Member)
    requires
        members_sorted(member_views(old(out)@)),
        !member_views(old(out)@).contains(m@),
    ensures
        members_sorted(member_views(final(out)@)),
        member_views(final(out)@).to_set() == member_views(old(out)@).to_set().insert(m@),
{
    let ghost before = member_views(out@);
    let mut i: usize = 0;
    while i < out.len() && member_less(&out[i], &m)
        invariant
            i <= out.len(),
            before == member_views(out@),
            forall|k: int| 0 <= k < i ==> member_lt(#[trigger] before[k], m@),
        decreases out.len() - i,
    {
        i = i + 1;
    }
    let ghost mv = m@;
    out.insert(i, m);
    let ghost after = member_views(out@);
    assert(after =~= before.insert(i as int, mv));
    proof {
        if i < before.len() {
            assert(before[i as int] != mv);
            lemma_member_order(before[i as int], mv, mv);
            assert(member_lt(mv, before[i as int]));
        }
        assert forall|a: int, b: int| 0 <= a < b < after.len() implies member_lt(#[trigger] after[a], #[trigger] after[b]) by {
            if b < i {
                assert(after[a] == before[a] && after[b] == before[b]);
            } else if b == i {
                assert(after[a] == before[a]);
            } else if a > i {
                assert(after[a] == before[a - 1] && after[b] == before[b - 1]);
            } else if a == i {
                if b - 1 > i {
                    lemma_member_order(mv, before[i as int], before[b - 1]);
                }
            } else {
                lemma_member_order(before[a], mv, before[b - 1]);
                assert(member_lt(before[a], before[b - 1]));
            }
        }
        assert forall|x| #[trigger] before.to_set().insert(mv).contains(x) implies after.to_set().contains(x) by {
            if x == mv {
                assert(after[i as int] == mv);
            } else {
                assert(before.contains(x));
                let k = choose|k: int| 0 <= k < before.len() && before[k] == x;
                if k < i {
                    assert(after[k] == x);
                } else {
                    assert(after[k + 1] == x);
                }
            }
        }
        assert forall|x| #[trigger] after.to_set().contains(x) implies before.to_set().insert(mv).contains(x) by {
            assert(after.contains(x));
            let k = choose|k: int| 0 <= k < after.len() && after[k] == x;
            if k < i {
                assert(before[k] == x);
            } else if k > i {
                assert(before[k - 1] == x);
            }
        }
        assert(after.to_set() =~= before.to_set().insert(mv));
    }
}

/// Inserts `m` into the sorted list `out` at its place.
pub fn insert_membership(out: &mut Vec<Membership>, m: Membership)
    requires
        memberships_sorted(membership_views(old(out)@)),
        !membership_views(old(out)@).contains(m@),
    ensures
        memberships_sorted(membership_views(final(out)@)),
        membership_views(final(out)@).to_set() == membership_views(old(out)@).to_set().insert(m@),
{
    let ghost before = membership_views(out@);
    let mut i: usize = 0;
    while i < out.len() && membership_less(&out[i], &m)
        invariant
            i <= out.len(),
            before == membership_views(out@),
            forall|k: int| 0 <= k < i ==> membership_lt(#[trigger] before[k], m@),
        decreases out.len() - i,
    {
        i = i + 1;
    }
    let ghost mv = m@;
    out.insert(i, m);
    let ghost after = membership_views(out@);
    assert(after =~= before.insert(i as int, mv));
    proof {
        if i < before.len() {
            assert(before[i as int] != mv);
            lemma_membership_order(before[i as int], mv, mv);
            assert(membership_lt(mv, before[i as int]));
        }
        assert forall|a: int, b: int| 0 <= a < b < after.len() implies membership_lt(#[trigger] after[a], #[trigger] after[b]) by {
            if b < i {
                assert(after[a] == before[a] && after[b] == before[b]);
            } else if b == i {
                assert(after[a] == before[a]);
            } else if a > i {
                assert(after[a] == before[a - 1] && after[b] == before[b - 1]);
            } else if a == i {
                if b - 1 > i {
                    lemma_membership_order(mv, before[i as int], before[b - 1]);
                }
            } else {
                lemma_membership_order(before[a], mv, before[b - 1]);
                assert(membership_lt(before[a], before[b - 1]));
            }
        }
        assert forall|x| #[trigger] before.to_set().insert(mv).contains(x) implies after.to_set().contains(x) by {
            if x == mv {
                assert(after[i as int] == mv);
            } else {
                assert(before.contains(x));
                let k = choose|k: int| 0 <= k < before.len() && before[k] == x;
                if k < i {
                    assert(after[k] == x);
                } else {
                    assert(after[k + 1] == x);
                }
            }
        }
        assert forall|x| #[trigger] after.to_set().contains(x) implies before.to_set().insert(mv).contains(x) by {
            assert(after.contains(x));
            let k = choose|k: int| 0 <= k < after.len() && after[k] == x;
            if k < i {
                assert(before[k] == x);
            } else if k > i {
                assert(before[k - 1] == x);
            }
        }
        assert(after.to_set() =~= before.to_set().insert(mv));
    }
}

} // verus!
