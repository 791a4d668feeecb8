//! The abstract meaning of a store: its schema as a map from relationship
//! names to composition rules, its facts as a sequence of tuples, and what
//! `check` resolves over them.
use vstd::prelude::*;

use crate::ids::MiniZError;

verus! {

/// A member as a mathematical value.
pub enum MemberView {
    Object(Seq<char>),
    User(Seq<char>),
}

/// Composition rules of one relationship.
pub struct RelationshipRules {
    /// Holding any of these on an object implies holding this one there.
    pub contained: Set<Seq<char>>,
    /// Edge relationships along which this one passes down: holding it on
    /// a container gives it on every object member of that container under
    /// one of these.
    pub inherited: Set<Seq<char>>,
}

/// One stored fact: `member` holds relationship `rel` on `object`.
pub struct TupleView {
    pub rel: Seq<char>,
    pub object: Seq<char>,
    pub member: MemberView,
}

/// A whole store: the frozen schema and the facts written so far, in the
/// order they were written.
pub struct StoreModel {
    pub schema: Map<Seq<char>, RelationshipRules>,
    pub tuples: Seq<TupleView>,
}

/// How many times `x` occurs in `s`.
pub open spec fn occurrences<A>(s: Seq<A>, x: A) -> nat
    decreases s.len(),
{
    if s.len() == 0 {
        0
    } else {
        occurrences(s.drop_last(), x) + if s.last() == x {
            1nat
        } else {
            0nat
        }
    }
}

impl StoreModel {
    pub open spec fn defined(self, r: Seq<char>) -> bool {
        self.schema.contains_key(r)
    }

    pub open spec fn has_tuple(self, r: Seq<char>, o: Seq<char>, m: MemberView) -> bool {
        exists|i: int|
            0 <= i < self.tuples.len() && #[trigger] self.tuples[i] == (TupleView {
                rel: r,
                object: o,
                member: m,
            })
    }

    /// The direct members of (`r`, `o`).
    pub open spec fn direct_members(self, r: Seq<char>, o: Seq<char>) -> Set<MemberView> {
        Set::new(|m: MemberView| self.has_tuple(r, o, m))
    }

    /// The (relationship, object) pairs on which `m` is a direct member.
    pub open spec fn memberships(self, m: MemberView) -> Set<(Seq<char>, Seq<char>)> {
        Set::new(|p: (Seq<char>, Seq<char>)| self.has_tuple(p.0, p.1, m))
    }

    /// The same store with one more fact.
    pub open spec fn add(self, r: Seq<char>, o: Seq<char>, m: MemberView) -> StoreModel {
        StoreModel {
            schema: self.schema,
            tuples: self.tuples.push(TupleView { rel: r, object: o, member: m }),
        }
    }

    /// Every fact is stored once and names a defined relationship.
    pub open spec fn valid(self) -> bool {
        &&& self.tuples.no_duplicates()
        &&& forall|i: int| 0 <= i < self.tuples.len() ==> self.defined(#[trigger] self.tuples[i].rel)
    }

    /// Object `o` is linked to container `o2` by an edge relationship that
    /// `r` inherits: `o` is an object member of `o2` under some `e` in the
    /// inherited set of `r`.
    pub open spec fn inherits_from(self, r: Seq<char>, o: Seq<char>, o2: Seq<char>) -> bool {
        exists|e: Seq<char>|
            #[trigger] self.schema[r].inherited.contains(e) && self.has_tuple(e, o2, MemberView::Object(o))
    }

    /// Holding `r2` on `o2` is one of the ways to hold `r` on `o`: either
    /// `r2` is contained in `r` on the same object, or `r2` is `r` itself
    /// and `o2` is a container that `o` inherits `r` from.
    pub open spec fn step(self, r: Seq<char>, o: Seq<char>, r2: Seq<char>, o2: Seq<char>) -> bool {
        &&& self.defined(r)
        &&& {
            ||| (o2 == o && self.schema[r].contained.contains(r2))
            ||| (r2 == r && self.inherits_from(r, o, o2))
        }
    }

    /// `p` is a resolution path from goal (`r`, `o`): it starts there and
    /// each goal on it steps to the next.
    pub open spec fn is_path(self, p: Seq<(Seq<char>, Seq<char>)>, r: Seq<char>, o: Seq<char>) -> bool {
        &&& p.len() > 0
        &&& p[0] == (r, o)
        &&& forall|i: int|
            0 <= i < p.len() - 1 ==> #[trigger] self.step(p[i].0, p[i].1, p[i + 1].0, p[i + 1].1)
    }

    /// Goal (`r2`, `o2`) is reached from goal (`r`, `o`).
    pub open spec fn reaches(self, r: Seq<char>, o: Seq<char>, r2: Seq<char>, o2: Seq<char>) -> bool {
        exists|p: Seq<(Seq<char>, Seq<char>)>| #[trigger] self.is_path(p, r, o) && p.last() == (r2, o2)
    }

    /// User `u` holds `r` on `o`: some goal reached from (`r`, `o`) has `u`
    /// as a direct member.
    pub open spec fn holds(self, r: Seq<char>, o: Seq<char>, u: Seq<char>) -> bool {
        exists|r2: Seq<char>, o2: Seq<char>|
            #[trigger] self.reaches(r, o, r2, o2) && self.has_tuple(r2, o2, MemberView::User(u))
    }

    /// Resolving `r` on `o` reaches a relationship that the schema does not
    /// define.
    pub open spec fn blocked(self, r: Seq<char>, o: Seq<char>) -> bool {
        exists|r2: Seq<char>, o2: Seq<char>| #[trigger] self.reaches(r, o, r2, o2) && !self.defined(r2)
    }

    /// What `check` answers for user `u`, relationship `r` and object `o`.
    pub open spec fn check(self, r: Seq<char>, o: Seq<char>, u: Seq<char>) -> Result<bool, MiniZError> {
        if self.holds(r, o, u) {
            Ok(true)
        } else if self.blocked(r, o) {
            Err(MiniZError::UnknownRelationship)
        } else {
            Ok(false)
        }
    }

    /// Every goal reaches itself.
    pub proof fn lemma_reaches_self(self, r: Seq<char>, o: Seq<char>)
        ensures
            self.reaches(r, o, r, o),
    {
        let p = seq![(r, o)];
        assert(self.is_path(p, r, o));
    }

    /// A goal reached from (`r0`, `o0`), followed by one more step, is
    /// reached from (`r0`, `o0`).
    pub proof fn lemma_reaches_step(self, r0: Seq<char>, o0: Seq<char>, r1: Seq<char>, o1: Seq<char>, r2: Seq<char>, o2: Seq<char>)
        requires
            self.reaches(r0, o0, r1, o1),
            self.step(r1, o1, r2, o2),
        ensures
            self.reaches(r0, o0, r2, o2),
    {
        let p = choose|p: Seq<(Seq<char>, Seq<char>)>| #[trigger] self.is_path(p, r0, o0) && p.last() == (r1, o1);
        let q = p.push((r2, o2));
        assert forall|i: int| 0 <= i < q.len() - 1 implies #[trigger] self.step(q[i].0, q[i].1, q[i + 1].0, q[i + 1].1) by {
            if i < p.len() - 1 {
                assert(self.step(p[i].0, p[i].1, p[i + 1].0, p[i + 1].1));
            }
        }
        assert(self.is_path(q, r0, o0));
    }
}

} // verus!
