//! The schema builder and the relationship store: writes, direct reads and
//! the reverse index.
use vstd::prelude::*;

use crate::ids::{Member, Membership, MiniZError, ObjectId, RelationshipId, UserId};
use crate::model::{MemberView, RelationshipRules, StoreModel, TupleView};
use crate::order::{
    insert_member, insert_membership, member_views, members_sorted, membership_views,
    memberships_sorted,
};

verus! {

/// The names in `ids`, as a set.
pub open spec fn name_set(ids: Seq<RelationshipId>) -> Set<Seq<char>> {
    Set::new(|n: Seq<char>| exists|i: int| 0 <= i < ids.len() && #[trigger] ids[i]@ == n)
}

proof fn lemma_name_set_push(ids: Seq<RelationshipId>, x: RelationshipId)
    ensures
        name_set(ids.push(x)) == name_set(ids).insert(x@),
{
    let s = ids.push(x);
    assert forall|n: Seq<char>| name_set(ids).insert(x@).contains(n) implies name_set(s).contains(n) by {
        if n == x@ {
            assert(s[ids.len() as int]@ == n);
        } else {
            let i = choose|i: int| 0 <= i < ids.len() && #[trigger] ids[i]@ == n;
            assert(s[i]@ == n);
        }
    }
    assert forall|n: Seq<char>| name_set(s).contains(n) implies name_set(ids).insert(x@).contains(n) by {
        let i = choose|i: int| 0 <= i < s.len() && #[trigger] s[i]@ == n;
        if i < ids.len() {
            assert(ids[i]@ == n);
        }
    }
    assert(name_set(s) =~= name_set(ids).insert(x@));
}

proof fn lemma_name_set_empty()
    ensures
        name_set(Seq::<RelationshipId>::empty()) == Set::<Seq<char>>::empty(),
{
    assert(name_set(Seq::<RelationshipId>::empty()) =~= Set::<Seq<char>>::empty());
}

/// One relationship of the schema with its composition rules.
pub(crate) struct Relationship {
    pub(crate) rid: RelationshipId,
    pub(crate) contained: Vec<RelationshipId>,
    pub(crate) inherited: Vec<RelationshipId>,
}

impl Relationship {
    pub(crate) open spec fn rules(self) -> RelationshipRules {
        RelationshipRules { contained: name_set(self.contained@), inherited: name_set(self.inherited@) }
    }
}

/// The schema that `rels` defines; a later definition of a name replaces an
/// earlier one.
pub(crate) open spec fn schema_of(rels: Seq<Relationship>) -> Map<Seq<char>, RelationshipRules>
    decreases rels.len(),
{
    if rels.len() == 0 {
        Map::empty()
    } else {
        schema_of(rels.drop_last()).insert(rels.last().rid@, rels.last().rules())
    }
}

/// One stored fact.
pub(crate) struct Tuple {
    pub(crate) rid: RelationshipId,
    pub(crate) object: ObjectId,
    pub(crate) member: Member,
}

impl View for Tuple {
    type V = TupleView;

    closed spec fn view(&self) -> TupleView {
        TupleView { rel: self.rid@, object: self.object@, member: self.member@ }
    }
}

/// Collects relationship definitions; `build` freezes them into a store.
pub struct MiniZBuilder {
    rels: Vec<Relationship>,
}

/// Collects the composition rules of one relationship; `build` adds it to
/// the schema that `miniz_builder` is collecting.
pub struct SetBuilder<'a> {
    /// The schema builder that receives the definition.
    pub miniz_builder: &'a mut MiniZBuilder,
    /// Name of the relationship being defined.
    pub name: String,
    /// Relationships whose holders also hold this one.
    pub contained_sets: Vec<RelationshipId>,
    /// Edge relationships through which this one is inherited.
    pub inherited_sets: Vec<RelationshipId>,
}

/// Reverse-index entry: the positions of the facts whose member is
/// `member`.
pub(crate) struct IndexEntry {
    pub(crate) member: Member,
    pub(crate) facts: Vec<usize>,
}

/// A frozen schema, the facts written against it, and a reverse index from
/// each member to the facts it is the member of.
pub struct MiniZ {
    rels: Vec<Relationship>,
    tuples: Vec<Tuple>,
    index: Vec<IndexEntry>,
}

impl MiniZBuilder {
    /// The schema defined so far.
    pub closed spec fn schema(&self) -> Map<Seq<char>, RelationshipRules> {
        schema_of(self.rels@)
    }

    /// Starts the definition of relationship `set_name`, with no rules yet.
    pub fn new_set(&mut self, set_name: &str) -> (r: SetBuilder<'_>)
        ensures
            r.name() == set_name@,
            r.rules() == (RelationshipRules { contained: Set::empty(), inherited: Set::empty() }),
            *r.miniz_builder == *old(self),
            *final(self) == *final(r.miniz_builder),
    {
        proof {
            lemma_name_set_empty();
        }
        SetBuilder {
            miniz_builder: self,
            name: set_name.to_owned(),
            contained_sets: Vec::new(),
            inherited_sets: Vec::new(),
        }
    }

    /// Freezes the schema into an empty store.
    pub fn build(self) -> (r: MiniZ)
        ensures
            r.wf(),
            r@ == (StoreModel { schema: self.schema(), tuples: Seq::empty() }),
    {
        let r = MiniZ { rels: self.rels, tuples: Vec::new(), index: Vec::new() };
        assert(r.view().tuples =~= Seq::<TupleView>::empty());
        r
    }
}

impl<'a> SetBuilder<'a> {
    /// The name of the relationship being defined.
    pub open spec fn name(&self) -> Seq<char> {
        self.name@
    }

    /// Its rules so far.
    pub open spec fn rules(&self) -> RelationshipRules {
        RelationshipRules {
            contained: name_set(self.contained_sets@),
            inherited: name_set(self.inherited_sets@),
        }
    }

    /// Holding `subrid` implies holding the relationship being defined.
    pub fn with_subset(self, subrid: &RelationshipId) -> (r: Self)
        ensures
            r.name() == self.name(),
            r.rules() == (RelationshipRules {
                contained: self.rules().contained.insert(subrid@),
                inherited: self.rules().inherited,
            }),
            r.miniz_builder == self.miniz_builder,
    {
        let mut s = self;
        let c = subrid.clone();
        proof {
            lemma_name_set_push(s.contained_sets@, c);
        }
        s.contained_sets.push(c);
        s
    }

    /// The relationship being defined passes down edges of relationship
    /// `rid`: holding it on a container gives it on the container's object
    /// members under `rid`.
    pub fn with_inherited_set(self, rid: &RelationshipId) -> (r: Self)
        ensures
            r.name() == self.name(),
            r.rules() == (RelationshipRules {
                contained: self.rules().contained,
                inherited: self.rules().inherited.insert(rid@),
            }),
            r.miniz_builder == self.miniz_builder,
    {
        let mut s = self;
        let c = rid.clone();
        proof {
            lemma_name_set_push(s.inherited_sets@, c);
        }
        s.inherited_sets.push(c);
        s
    }

    /// Adds the definition to the schema, replacing any earlier definition
    /// of the same name, and returns its identifier.
    pub fn build(self) -> (r: RelationshipId)
        ensures
            r@ == self.name(),
            final(self.miniz_builder).schema() == old(self.miniz_builder).schema().insert(self.name(), self.rules()),
    {
        let rid = RelationshipId { name: self.name };
        let ghost before = self.miniz_builder.rels@;
        self.miniz_builder.rels.push(
            Relationship {
                rid: rid.clone(),
                contained: self.contained_sets,
                inherited: self.inherited_sets,
            },
        );
        assert(self.miniz_builder.rels@.drop_last() =~= before);
        rid
    }
}


/// Without a definition of `name` at index `i` or later, the schema agrees
/// on `name` with the one the first `i` definitions make.
proof fn lemma_schema_prefix(rels: Seq<Relationship>, i: int, name: Seq<char>)
    requires
        0 <= i <= rels.len(),
        forall|j: int| i <= j < rels.len() ==> rels[j].rid@ != name,
    ensures
        schema_of(rels).contains_key(name) == schema_of(rels.take(i)).contains_key(name),
        schema_of(rels).contains_key(name) ==> schema_of(rels)[name] == schema_of(rels.take(i))[name],
    decreases rels.len(),
{
    if i < rels.len() {
        assert(rels.drop_last().take(i) =~= rels.take(i));
        lemma_schema_prefix(rels.drop_last(), i, name);
    } else {
        assert(rels.take(i) =~= rels);
    }
}

impl MiniZ {
    /// The schema and the facts, as mathematical values.
    pub closed spec fn view(&self) -> StoreModel {
        StoreModel { schema: schema_of(self.rels@), tuples: self.tuples@.map_values(|t: Tuple| t@) }
    }

    /// Well-formedness: every fact is stored once, under a defined
    /// relationship.
    pub open spec fn wf(&self) -> bool {
        self.view().valid() && self.index_ok()
    }

    /// The reverse index agrees with the facts: each member has at most one
    /// entry, an entry lists positions of facts of its member without
    /// repeats, and every fact is listed by some entry.
    pub closed spec fn index_ok(&self) -> bool {
        &&& forall|e: int, x: int|
            0 <= e < self.index.len() && 0 <= x < self.index@[e].facts.len() ==> {
                &&& (#[trigger] self.index@[e].facts@[x]) < self.tuples.len()
                &&& self.tuples@[self.index@[e].facts@[x] as int].member@ == self.index@[e].member@
            }
        &&& forall|e: int| 0 <= e < self.index.len() ==> (#[trigger] self.index@[e]).facts@.no_duplicates()
        &&& forall|e1: int, e2: int|
            0 <= e1 < self.index.len() && 0 <= e2 < self.index.len() && e1 != e2 ==> (#[trigger] self.index@[e1]).member@
                != (#[trigger] self.index@[e2]).member@
        &&& forall|q: int| 0 <= q < self.tuples.len() ==> #[trigger] listed_in(self.index@, q)
    }

    /// Index of the reverse-index entry of `m`, if it has one.
    fn find_entry(&self, m: &Member) -> (r: Option<usize>)
        ensures
            match r {
                Some(e) => e < self.index.len() && self.index@[e as int].member@ == m@,
                None => forall|e: int| 0 <= e < self.index.len() ==> (#[trigger] self.index@[e]).member@ != m@,
            },
    {
        let mut e: usize = 0;
        while e < self.index.len()
            invariant
                e <= self.index.len(),
                forall|k: int| 0 <= k < e ==> (#[trigger] self.index@[k]).member@ != m@,
            decreases self.index.len() - e,
        {
            if self.index[e].member == *m {
                return Some(e);
            }
            e = e + 1;
        }
        None
    }

    /// Positions of the facts whose member is `m`, each once.
    fn facts_of(&self, m: &Member) -> (r: Vec<usize>)
        requires
            self.wf(),
        ensures
            r@.no_duplicates(),
            forall|x: int| 0 <= x < r.len() ==> (#[trigger] r@[x]) < self.tuples.len() && self.view().tuples[r@[x] as int].member == m@,
            forall|q: int| 0 <= q < self.tuples.len() && self.view().tuples[q].member == m@ ==> r@.contains(q as usize),
    {
        match self.find_entry(m) {
            Some(e) => {
                proof {
                    assert forall|q: int| 0 <= q < self.tuples.len() && self.view().tuples[q].member == m@ implies self.index@[e as int].facts@.contains(q as usize) by {
                        assert(self.view().tuples[q] == self.tuples@[q]@);
                        assert(listed_in(self.index@, q));
                        let (e2, x) = choose|e2: int, x: int|
                            0 <= e2 < self.index.len() && 0 <= x < self.index@[e2].facts.len() && #[trigger] self.index@[e2].facts@[x] == q as usize;
                        assert(self.index@[e2].member@ == m@);
                        assert(self.index@[e2].member@ == self.index@[e as int].member@);
                    }
                    assert forall|x: int| 0 <= x < self.index@[e as int].facts.len() implies (#[trigger] self.index@[e as int].facts@[x]) < self.tuples.len() && self.view().tuples[self.index@[e as int].facts@[x] as int].member == m@ by {
                        let q = self.index@[e as int].facts@[x] as int;
                        assert(self.view().tuples[q] == self.tuples@[q]@);
                    }
                }
                self.index[e].facts.clone()
            },
            None => {
                proof {
                    assert forall|q: int| 0 <= q < self.tuples.len() implies self.view().tuples[q].member != m@ by {
                        assert(self.view().tuples[q] == self.tuples@[q]@);
                        assert(listed_in(self.index@, q));
                        let (e2, x) = choose|e2: int, x: int|
                            0 <= e2 < self.index.len() && 0 <= x < self.index@[e2].facts.len() && #[trigger] self.index@[e2].facts@[x] == q as usize;
                        assert(self.index@[e2].member@ == self.tuples@[q].member@);
                    }
                }
                Vec::new()
            },
        }
    }

    /// A builder with an empty schema.
    pub fn builder() -> (r: MiniZBuilder)
        ensures
            r.schema() == Map::<Seq<char>, RelationshipRules>::empty(),
    {
        MiniZBuilder { rels: Vec::new() }
    }

    /// Index of the definition in force for relationship `rid`, if any.
    fn find_rel(&self, rid: &RelationshipId) -> (r: Option<usize>)
        ensures
            match r {
                Some(i) => {
                    &&& i < self.rels.len()
                    &&& self.rels@[i as int].rid@ == rid@
                    &&& self.view().defined(rid@)
                    &&& self.view().schema[rid@] == self.rels@[i as int].rules()
                },
                None => !self.view().defined(rid@),
            },
    {
        let mut i: usize = self.rels.len();
        while i > 0
            invariant
                i <= self.rels.len(),
                forall|j: int| i <= j < self.rels.len() ==> self.rels@[j].rid@ != rid@,
            decreases i,
        {
            if self.rels[i - 1].rid.name == rid.name {
                let k: usize = i - 1;
                proof {
                    lemma_schema_prefix(self.rels@, i as int, rid@);
                    assert(self.rels@.take(i as int).drop_last() =~= self.rels@.take(k as int));
                }
                return Some(k);
            }
            i = i - 1;
        }
        proof {
            lemma_schema_prefix(self.rels@, 0, rid@);
        }
        None
    }

    /// Whether `m` is a direct member of (`rid`, `object`).
    fn has_tuple(&self, rid: &RelationshipId, object: &ObjectId, m: &Member) -> (r: bool)
        ensures
            r == self.view().has_tuple(rid@, object@, m@),
    {
        let mut i: usize = 0;
        while i < self.tuples.len()
            invariant
                i <= self.tuples.len(),
                forall|j: int| 0 <= j < i ==> self.view().tuples[j] != (TupleView {
                    rel: rid@,
                    object: object@,
                    member: m@,
                }),
            decreases self.tuples.len() - i,
        {
            let t = &self.tuples[i];
            if t.rid.name == rid.name && t.object.name == object.name && t.member == *m {
                assert(self.view().tuples[i as int] == (TupleView {
                    rel: rid@,
                    object: object@,
                    member: m@,
                }));
                return true;
            }
            i = i + 1;
        }
        false
    }

    /// Stores the fact that `m` holds `rid` on `parent`.
    fn write(&mut self, rid: &RelationshipId, parent: ObjectId, m: Member) -> (r: Result<(), MiniZError>)
        requires
            old(self).wf(),
        ensures
            final(self).wf(),
            r == Err::<(), MiniZError>(MiniZError::UnknownRelationship) <==> !old(self).view().defined(rid@),
            r == Err::<(), MiniZError>(MiniZError::DuplicateTuple) <==> old(self).view().defined(rid@)
                && old(self).view().has_tuple(rid@, parent@, m@),
            r is Ok <==> old(self).view().defined(rid@) && !old(self).view().has_tuple(rid@, parent@, m@),
            r is Ok ==> final(self).view() == old(self).view().add(rid@, parent@, m@),
            r is Err ==> final(self).view() == old(self).view(),
    {
        if self.find_rel(rid).is_none() {
            return Err(MiniZError::UnknownRelationship);
        }
        if self.has_tuple(rid, &parent, &m) {
            return Err(MiniZError::DuplicateTuple);
        }
        let ghost before = self.view();
        let ghost old_tuples = self.tuples@;
        let ghost old_index = self.index@;
        let k: usize = self.tuples.len();
        let entry = self.find_entry(&m);
        let key = m.clone();
        self.tuples.push(Tuple { rid: rid.clone(), object: parent, member: m });
        match entry {
            Some(e) => {
                self.index[e].facts.push(k);
            },
            None => {
                let mut facts: Vec<usize> = Vec::new();
                facts.push(k);
                self.index.push(IndexEntry { member: key, facts });
            },
        }
        proof {
            assert forall|q: int| 0 <= q < old_tuples.len() implies #[trigger] self.tuples@[q] == old_tuples[q] by {}
            self.lemma_index_after_push(old_tuples, old_index, k, entry);
        }
        proof {
            let t = TupleView { rel: rid@, object: parent@, member: m@ };
            assert(self.view().tuples =~= before.tuples.push(t));
            assert forall|i: int, j: int|
                0 <= i < self.view().tuples.len() && 0 <= j < self.view().tuples.len() && i != j
                implies self.view().tuples[i] != self.view().tuples[j] by {
                if j == before.tuples.len() {
                    assert(!before.has_tuple(rid@, parent@, m@));
                    assert(before.tuples[i] != t);
                } else if i == before.tuples.len() {
                    assert(before.tuples[j] != t);
                }
            }
        }
        Ok(())
    }

    /// The reverse index still agrees with the facts after fact `k` was
    /// appended and its position added to the entry of its member.
    proof fn lemma_index_after_push(&self, old_tuples: Seq<Tuple>, old_index: Seq<IndexEntry>, k: usize, entry: Option<usize>)
        requires
            k == old_tuples.len(),
            self.tuples@.len() == k + 1,
            forall|q: int| 0 <= q < k ==> #[trigger] self.tuples@[q] == old_tuples[q],
            forall|e: int, x: int|
                0 <= e < old_index.len() && 0 <= x < old_index[e].facts.len() ==> {
                    &&& (#[trigger] old_index[e].facts@[x]) < k
                    &&& old_tuples[old_index[e].facts@[x] as int].member@ == old_index[e].member@
                },
            forall|e: int| 0 <= e < old_index.len() ==> (#[trigger] old_index[e]).facts@.no_duplicates(),
            forall|e1: int, e2: int|
                0 <= e1 < old_index.len() && 0 <= e2 < old_index.len() && e1 != e2 ==> (#[trigger] old_index[e1]).member@
                    != (#[trigger] old_index[e2]).member@,
            forall|q: int| 0 <= q < k ==> #[trigger] listed_in(old_index, q),
            match entry {
                Some(e) => {
                    &&& e < old_index.len()
                    &&& old_index[e as int].member@ == self.tuples@[k as int].member@
                    &&& self.index@ == old_index.update(e as int, self.index@[e as int])
                    &&& self.index@[e as int].member == old_index[e as int].member
                    &&& self.index@[e as int].facts@ == old_index[e as int].facts@.push(k)
                },
                None => {
                    &&& forall|e: int| 0 <= e < old_index.len() ==> (#[trigger] old_index[e]).member@ != self.tuples@[k as int].member@
                    &&& self.index@.len() == old_index.len() + 1
                    &&& forall|e: int| 0 <= e < old_index.len() ==> #[trigger] self.index@[e] == old_index[e]
                    &&& self.index@[old_index.len() as int].member@ == self.tuples@[k as int].member@
                    &&& self.index@[old_index.len() as int].facts@ == seq![k]
                },
            },
        ensures
            self.index_ok(),
    {
        let idx = self.index@;
        assert forall|e: int, x: int| 0 <= e < idx.len() && 0 <= x < idx[e].facts.len() implies {
            &&& (#[trigger] idx[e].facts@[x]) < self.tuples.len()
            &&& self.tuples@[idx[e].facts@[x] as int].member@ == idx[e].member@
        } by {
            if e < old_index.len() && x < old_index[e].facts.len() {
                assert(idx[e].facts@[x] == old_index[e].facts@[x]);
            }
        }
        assert forall|e: int| 0 <= e < idx.len() implies (#[trigger] idx[e]).facts@.no_duplicates() by {
            if e < old_index.len() {
                if idx[e].facts@ != old_index[e].facts@ {
                    assert forall|a: int, b: int| 0 <= a < b < idx[e].facts.len() implies idx[e].facts@[a] != idx[e].facts@[b] by {
                        if b == old_index[e].facts.len() {
                            assert(old_index[e].facts@[a] < k);
                        }
                    }
                }
            }
        }
        assert forall|e1: int, e2: int|
            0 <= e1 < idx.len() && 0 <= e2 < idx.len() && e1 != e2 implies (#[trigger] idx[e1]).member@ != (#[trigger] idx[e2]).member@ by {
            if e1 < old_index.len() && e2 < old_index.len() {
                assert(idx[e1].member@ == old_index[e1].member@);
                assert(idx[e2].member@ == old_index[e2].member@);
            }
        }
        assert forall|q: int| 0 <= q < self.tuples.len() implies #[trigger] listed_in(idx, q) by {
            if q == k {
                match entry {
                    Some(e) => {
                        assert(idx[e as int].facts@[old_index[e as int].facts.len() as int] == k);
                    },
                    None => {
                        assert(idx[old_index.len() as int].facts@[0] == k);
                    },
                }
            } else {
                assert(listed_in(old_index, q));
                let (e, x) = choose|e: int, x: int|
                    0 <= e < old_index.len() && 0 <= x < old_index[e].facts.len() && #[trigger] old_index[e].facts@[x] == q as usize;
                assert(idx[e].facts@[x] == q as usize);
            }
        }
    }

    /// Stores the fact that object `child` holds `rid` on object `parent`.
    pub fn write_object(&mut self, rid: &RelationshipId, parent: ObjectId, child: ObjectId) -> (r: Result<(), MiniZError>)
        requires
            old(self).wf(),
        ensures
            final(self).wf(),
            r == Err::<(), MiniZError>(MiniZError::UnknownRelationship) <==> !old(self).view().defined(rid@),
            r == Err::<(), MiniZError>(MiniZError::DuplicateTuple) <==> old(self).view().defined(rid@)
                && old(self).view().has_tuple(rid@, parent@, MemberView::Object(child@)),
            r is Ok <==> old(self).view().defined(rid@) && !old(self).view().has_tuple(rid@, parent@, MemberView::Object(child@)),
            r is Ok ==> final(self).view() == old(self).view().add(rid@, parent@, MemberView::Object(child@)),
            r is Err ==> final(self).view() == old(self).view(),
    {
        self.write(rid, parent, Member::Object(child))
    }

    /// Stores the fact that user `child` holds `rid` on object `parent`.
    pub fn write_user(&mut self, rid: &RelationshipId, parent: ObjectId, child: UserId) -> (r: Result<(), MiniZError>)
        requires
            old(self).wf(),
        ensures
            final(self).wf(),
            r == Err::<(), MiniZError>(MiniZError::UnknownRelationship) <==> !old(self).view().defined(rid@),
            r == Err::<(), MiniZError>(MiniZError::DuplicateTuple) <==> old(self).view().defined(rid@)
                && old(self).view().has_tuple(rid@, parent@, MemberView::User(child@)),
            r is Ok <==> old(self).view().defined(rid@) && !old(self).view().has_tuple(rid@, parent@, MemberView::User(child@)),
            r is Ok ==> final(self).view() == old(self).view().add(rid@, parent@, MemberView::User(child@)),
            r is Err ==> final(self).view() == old(self).view(),
    {
        self.write(rid, parent, Member::User(child))
    }

    /// Whether object `child` directly holds `rid` on `parent`.
    pub fn set_contains_object_directly(&self, rid: &RelationshipId, parent: &ObjectId, child: ObjectId) -> (r: Result<bool, MiniZError>)
        ensures
            r == if self.view().defined(rid@) {
                Ok(self.view().has_tuple(rid@, parent@, MemberView::Object(child@)))
            } else {
                Err(MiniZError::UnknownRelationship)
            },
    {
        if self.find_rel(rid).is_none() {
            return Err(MiniZError::UnknownRelationship);
        }
        Ok(self.has_tuple(rid, parent, &Member::Object(child)))
    }

    /// Whether user `child` directly holds `rid` on `parent`.
    pub fn set_contains_user_directly(&self, rid: &RelationshipId, parent: &ObjectId, child: UserId) -> (r: Result<bool, MiniZError>)
        ensures
            r == if self.view().defined(rid@) {
                Ok(self.view().has_tuple(rid@, parent@, MemberView::User(child@)))
            } else {
                Err(MiniZError::UnknownRelationship)
            },
    {
        if self.find_rel(rid).is_none() {
            return Err(MiniZError::UnknownRelationship);
        }
        Ok(self.has_tuple(rid, parent, &Member::User(child)))
    }

    /// The direct members of (`rid`, `parent`), each once, objects before
    /// users and each kind by name.
    pub fn set_list_direct_members(&self, rid: &RelationshipId, parent: &ObjectId) -> (r: Result<Vec<Member>, MiniZError>)
        requires
            self.wf(),
        ensures
            !self.view().defined(rid@) ==> r == Err::<Vec<Member>, MiniZError>(MiniZError::UnknownRelationship),
            self.view().defined(rid@) ==> r is Ok,
            r is Ok ==> members_sorted(member_views(r->Ok_0@)),
            r is Ok ==> member_views(r->Ok_0@).to_set() == self.view().direct_members(rid@, parent@),
    {
        if self.find_rel(rid).is_none() {
            return Err(MiniZError::UnknownRelationship);
        }
        let ghost tv = self.view().tuples;
        let mut out: Vec<Member> = Vec::new();
        let mut i: usize = 0;
        assert(member_views(out@).to_set() =~= members_before(tv, rid@, parent@, 0));
        while i < self.tuples.len()
            invariant
                i <= self.tuples.len(),
                tv == self.view().tuples,
                tv.no_duplicates(),
                members_sorted(member_views(out@)),
                member_views(out@).to_set() == members_before(tv, rid@, parent@, i as int),
            decreases self.tuples.len() - i,
        {
            let t = &self.tuples[i];
            proof {
                assert(tv[i as int] == t@);
            }
            if t.rid.name == rid.name && t.object.name == parent.name {
                let m = t.member.clone();
                proof {
                    if member_views(out@).contains(m@) {
                        assert(member_views(out@).to_set().contains(m@));
                        let q = choose|q: int|
                            0 <= q < i && tv[q] == (TupleView { rel: rid@, object: parent@, member: m@ });
                        assert(tv[q] == tv[i as int]);
                    }
                }
                insert_member(&mut out, m);
                assert(member_views(out@).to_set() =~= members_before(tv, rid@, parent@, i + 1));
            } else {
                assert(members_before(tv, rid@, parent@, i as int) =~= members_before(tv, rid@, parent@, i + 1));
            }
            i = i + 1;
        }
        assert(members_before(tv, rid@, parent@, i as int) =~= self.view().direct_members(rid@, parent@));
        Ok(out)
    }

    /// Every (relationship, object) pair on which `m` is a direct member,
    /// each once, by relationship name and then by object name.
    fn lookup_memberships(&self, m: &Member) -> (r: Vec<Membership>)
        requires
            self.wf(),
        ensures
            memberships_sorted(membership_views(r@)),
            membership_views(r@).to_set() == self.view().memberships(m@),
    {
        let ghost tv = self.view().tuples;
        let facts = self.facts_of(m);
        let mut out: Vec<Membership> = Vec::new();
        let mut y: usize = 0;
        assert(membership_views(out@).to_set() =~= memberships_at(tv, facts@, 0));
        while y < facts.len()
            invariant
                y <= facts.len(),
                tv == self.view().tuples,
                tv.len() == self.tuples.len(),
                tv.no_duplicates(),
                facts@.no_duplicates(),
                forall|x: int| 0 <= x < facts.len() ==> (#[trigger] facts@[x]) < tv.len() && tv[facts@[x] as int].member == m@,
                memberships_sorted(membership_views(out@)),
                membership_views(out@).to_set() == memberships_at(tv, facts@, y as int),
            decreases facts.len() - y,
        {
            let k = facts[y];
            let t = &self.tuples[k];
            proof {
                assert(tv[k as int] == t@);
            }
            let x = Membership { rid: t.rid.clone(), object: t.object.clone() };
            proof {
                if membership_views(out@).contains(x@) {
                    assert(membership_views(out@).to_set().contains(x@));
                    let z = choose|z: int| 0 <= z < y && tv[facts@[z] as int].rel == x@.0 && tv[facts@[z] as int].object == x@.1;
                    assert(tv[facts@[z] as int] == tv[k as int]);
                    assert(facts@[z] == facts@[y as int]);
                }
            }
            insert_membership(&mut out, x);
            assert(membership_views(out@).to_set() =~= memberships_at(tv, facts@, y + 1));
            y = y + 1;
        }
        proof {
            let v = self.view();
            assert forall|p: (Seq<char>, Seq<char>)| #[trigger] v.memberships(m@).contains(p) implies memberships_at(tv, facts@, y as int).contains(p) by {
                let q = choose|q: int|
                    0 <= q < tv.len() && #[trigger] tv[q] == (TupleView { rel: p.0, object: p.1, member: m@ });
                assert(facts@.contains(q as usize));
                let z = choose|z: int| 0 <= z < facts.len() && facts@[z] == q as usize;
                assert(tv[facts@[z] as int] == tv[q]);
            }
            assert forall|p: (Seq<char>, Seq<char>)| #[trigger] memberships_at(tv, facts@, y as int).contains(p) implies v.memberships(m@).contains(p) by {
                let z = choose|z: int| 0 <= z < y && tv[facts@[z] as int].rel == p.0 && tv[facts@[z] as int].object == p.1;
                let q = facts@[z] as int;
                assert(tv[q] == (TupleView { rel: p.0, object: p.1, member: m@ }));
            }
            assert(memberships_at(tv, facts@, y as int) =~= v.memberships(m@));
        }
        out
    }

    /// Every (relationship, object) pair on which object `object` is a
    /// direct member, each once, by relationship name and then by object
    /// name.
    pub fn object_lookup_memberships(&self, object: ObjectId) -> (r: Vec<Membership>)
        requires
            self.wf(),
        ensures
            memberships_sorted(membership_views(r@)),
            membership_views(r@).to_set() == self.view().memberships(MemberView::Object(object@)),
    {
        self.lookup_memberships(&Member::Object(object))
    }

    /// Every (relationship, object) pair on which user `user` is a direct
    /// member, each once, by relationship name and then by object name.
    pub fn user_lookup_memberships(&self, user: UserId) -> (r: Vec<Membership>)
        requires
            self.wf(),
        ensures
            memberships_sorted(membership_views(r@)),
            membership_views(r@).to_set() == self.view().memberships(MemberView::User(user@)),
    {
        self.lookup_memberships(&Member::User(user))
    }

    /// Some marked cell of the search grid stands for goal (`r`, `o`).
    closed spec fn covers(&self, objs: Seq<ObjectId>, marked: Seq<Vec<bool>>, r: Seq<char>, o: Seq<char>) -> bool {
        exists|i: int, j: int|
            0 <= i < marked.len() && 0 <= j < objs.len() && j < marked[i].len() && #[trigger] marked[i]@[j]
                && self.rels@[i].rid@ == r && #[trigger] objs[j]@ == o
    }

    /// Cell (`i`, `j`) stands for a goal reachable from (`r0`, `o0`) whose
    /// relationship is the definition in force.
    closed spec fn cell_sound(&self, objs: Seq<ObjectId>, r0: Seq<char>, o0: Seq<char>, i: int, j: int) -> bool {
        &&& 0 <= i < self.rels.len()
        &&& 0 <= j < objs.len()
        &&& self.view().defined(self.rels@[i].rid@)
        &&& self.view().schema[self.rels@[i].rid@] == self.rels@[i].rules()
        &&& self.view().reaches(r0, o0, self.rels@[i].rid@, objs[j]@)
    }

    /// The goal of cell (`i`, `j`) has been resolved: `u` is not a direct
    /// member of it, and each goal it steps to is covered or, when its
    /// relationship is undefined, `missing` is set.
    closed spec fn cell_done(
        &self,
        objs: Seq<ObjectId>,
        marked: Seq<Vec<bool>>,
        missing: bool,
        u: Seq<char>,
        i: int,
        j: int,
    ) -> bool {
        &&& !self.view().has_tuple(self.rels@[i].rid@, objs[j]@, MemberView::User(u))
        &&& forall|r2: Seq<char>, o2: Seq<char>|
            #[trigger] self.view().step(self.rels@[i].rid@, objs[j]@, r2, o2) ==> {
                &&& self.view().defined(r2) ==> self.covers(objs, marked, r2, o2)
                &&& !self.view().defined(r2) ==> missing
            }
    }

    proof fn lemma_covers_grow(&self, objs: Seq<ObjectId>, m1: Seq<Vec<bool>>, m2: Seq<Vec<bool>>)
        requires
            m1.len() == m2.len(),
            forall|i: int| 0 <= i < m1.len() ==> m1[i].len() == m2[i].len(),
            forall|i: int, j: int| 0 <= i < m1.len() && 0 <= j < m1[i].len() && m1[i]@[j] ==> m2[i]@[j],
        ensures
            forall|r: Seq<char>, o: Seq<char>| self.covers(objs, m1, r, o) ==> self.covers(objs, m2, r, o),
    {
        assert forall|r: Seq<char>, o: Seq<char>| self.covers(objs, m1, r, o) implies self.covers(objs, m2, r, o) by {
            let (i, j) = choose|i: int, j: int|
                0 <= i < m1.len() && 0 <= j < objs.len() && j < m1[i].len() && #[trigger] m1[i]@[j]
                    && self.rels@[i].rid@ == r && #[trigger] objs[j]@ == o;
            assert(m2[i]@[j]);
        }
    }


    /// State of the search for user `u` on goal (`r0`, `o0`): `objs[0]` is
    /// the queried object and `objs[q + 1]` the object of fact `q`; every
    /// cell of `order` is marked and sound, every marked cell is in
    /// `order`, and the first `done` cells of `order` are resolved.
    closed spec fn search_inv(
        &self,
        objs: Seq<ObjectId>,
        marked: Seq<Vec<bool>>,
        order: Seq<(usize, usize)>,
        done: int,
        missing: bool,
        r0: Seq<char>,
        o0: Seq<char>,
        u: Seq<char>,
    ) -> bool {
        &&& self.wf()
        &&& objs.len() == self.tuples.len() + 1
        &&& objs[0]@ == o0
        &&& forall|q: int| 0 <= q < self.tuples.len() ==> #[trigger] objs[q + 1]@ == self.view().tuples[q].object
        &&& marked.len() == self.rels.len()
        &&& forall|x: int| 0 <= x < marked.len() ==> #[trigger] marked[x].len() == objs.len()
        &&& 0 <= done <= order.len()
        &&& forall|p: int|
            0 <= p < order.len() ==> {
                &&& (#[trigger] order[p]).0 < marked.len()
                &&& order[p].1 < objs.len()
                &&& marked[order[p].0 as int]@[order[p].1 as int]
                &&& self.cell_sound(objs, r0, o0, order[p].0 as int, order[p].1 as int)
            }
        &&& forall|x: int, y: int|
            0 <= x < marked.len() && 0 <= y < objs.len() && #[trigger] marked[x]@[y] ==> exists|p: int|
                0 <= p < order.len() && #[trigger] order[p] == (x as usize, y as usize)
        &&& forall|p: int|
            0 <= p < done ==> self.cell_done(objs, marked, missing, u, (#[trigger] order[p]).0 as int, order[p].1 as int)
        &&& missing ==> self.view().blocked(r0, o0)
        &&& self.view().defined(r0)
        &&& self.covers(objs, marked, r0, o0)
    }

    /// Marking a sound cell and queueing it keeps the search state.
    proof fn lemma_inv_mark(
        &self,
        objs: Seq<ObjectId>,
        m1: Seq<Vec<bool>>,
        m2: Seq<Vec<bool>>,
        order: Seq<(usize, usize)>,
        done: int,
        missing: bool,
        r0: Seq<char>,
        o0: Seq<char>,
        u: Seq<char>,
        x: usize,
        y: usize,
    )
        requires
            self.search_inv(objs, m1, order, done, missing, r0, o0, u),
            x < m1.len(),
            y < objs.len(),
            self.cell_sound(objs, r0, o0, x as int, y as int),
            m2.len() == m1.len(),
            forall|a: int| 0 <= a < m1.len() ==> (#[trigger] m2[a]).len() == m1[a].len(),
            forall|a: int, b: int|
                0 <= a < m1.len() && 0 <= b < m1[a].len() ==> #[trigger] m2[a]@[b] == (m1[a]@[b] || (a == x && b == y)),
        ensures
            self.search_inv(objs, m2, order.push((x, y)), done, missing, r0, o0, u),
            forall|r: Seq<char>, o: Seq<char>| self.covers(objs, m1, r, o) ==> self.covers(objs, m2, r, o),
            self.covers(objs, m2, self.rels@[x as int].rid@, objs[y as int]@),
    {
        self.lemma_covers_grow(objs, m1, m2);
        let o2 = order.push((x, y));
        assert(m2[x as int]@[y as int]);
        assert forall|p: int| 0 <= p < done implies self.cell_done(objs, m2, missing, u, (#[trigger] o2[p]).0 as int, o2[p].1 as int) by {
            assert(o2[p] == order[p]);
            assert(self.cell_done(objs, m1, missing, u, order[p].0 as int, order[p].1 as int));
        }
        assert forall|a: int, b: int|
            0 <= a < m2.len() && 0 <= b < objs.len() && #[trigger] m2[a]@[b] implies exists|p: int|
                0 <= p < o2.len() && #[trigger] o2[p] == (a as usize, b as usize) by {
            if a == x && b == y {
                assert(o2[order.len() as int] == (a as usize, b as usize));
            } else {
                assert(m1[a]@[b]);
                let p = choose|p: int| 0 <= p < order.len() && #[trigger] order[p] == (a as usize, b as usize);
                assert(o2[p] == order[p]);
            }
        }
        assert forall|p: int| 0 <= p < o2.len() implies {
            &&& (#[trigger] o2[p]).0 < m2.len()
            &&& o2[p].1 < objs.len()
            &&& m2[o2[p].0 as int]@[o2[p].1 as int]
            &&& self.cell_sound(objs, r0, o0, o2[p].0 as int, o2[p].1 as int)
        } by {
            if p < order.len() {
                assert(o2[p] == order[p]);
            }
        }
        assert(self.covers(objs, m2, self.rels@[x as int].rid@, objs[y as int]@));
    }

    /// Setting `missing` once a blocked goal is found keeps the search state.
    proof fn lemma_inv_missing(
        &self,
        objs: Seq<ObjectId>,
        marked: Seq<Vec<bool>>,
        order: Seq<(usize, usize)>,
        done: int,
        missing: bool,
        r0: Seq<char>,
        o0: Seq<char>,
        u: Seq<char>,
    )
        requires
            self.search_inv(objs, marked, order, done, missing, r0, o0, u),
            self.view().blocked(r0, o0),
        ensures
            self.search_inv(objs, marked, order, done, true, r0, o0, u),
    {
        assert forall|p: int| 0 <= p < done implies self.cell_done(objs, marked, true, u, (#[trigger] order[p]).0 as int, order[p].1 as int) by {
            assert(self.cell_done(objs, marked, missing, u, order[p].0 as int, order[p].1 as int));
        }
    }

    /// Once every queued cell is resolved, each goal on a path from the
    /// start is covered, or its relationship is undefined and `missing` is
    /// set.
    proof fn lemma_search_complete(
        &self,
        objs: Seq<ObjectId>,
        marked: Seq<Vec<bool>>,
        order: Seq<(usize, usize)>,
        missing: bool,
        r0: Seq<char>,
        o0: Seq<char>,
        u: Seq<char>,
        path: Seq<(Seq<char>, Seq<char>)>,
    )
        requires
            self.search_inv(objs, marked, order, order.len() as int, missing, r0, o0, u),
            self.view().is_path(path, r0, o0),
        ensures
            self.view().defined(path.last().0) ==> self.covers(objs, marked, path.last().0, path.last().1),
            !self.view().defined(path.last().0) ==> missing,
        decreases path.len(),
    {
        let v = self.view();
        if path.len() > 1 {
            let q = path.drop_last();
            assert forall|i: int| 0 <= i < q.len() - 1 implies #[trigger] v.step(q[i].0, q[i].1, q[i + 1].0, q[i + 1].1) by {
                assert(v.step(path[i].0, path[i].1, path[i + 1].0, path[i + 1].1));
            }
            self.lemma_search_complete(objs, marked, order, missing, r0, o0, u, q);
            let k = path.len() - 2;
            assert(v.step(path[k].0, path[k].1, path[k + 1].0, path[k + 1].1));
            let (x, y) = choose|x: int, y: int|
                0 <= x < marked.len() && 0 <= y < objs.len() && y < marked[x].len() && #[trigger] marked[x]@[y]
                    && self.rels@[x].rid@ == q.last().0 && #[trigger] objs[y]@ == q.last().1;
            let p = choose|p: int| 0 <= p < order.len() && #[trigger] order[p] == (x as usize, y as usize);
            assert(self.cell_done(objs, marked, missing, u, x, y));
            assert(v.step(self.rels@[x].rid@, objs[y]@, path.last().0, path.last().1));
        } else {
            assert(path.last() == (r0, o0));
        }
    }

    /// Whether user `user` holds `rid` on `object`: directly, through a
    /// contained relationship on the same object, or by holding `rid` on a
    /// container that `object` is an object member of under an edge
    /// relationship that `rid` inherits. The
    /// search visits each (relationship, object) goal once, so it ends on
    /// cyclic schemas and fact graphs too. A goal naming an undefined
    /// relationship makes the answer `UnknownRelationship`, unless the user
    /// is found to hold `rid`.
    pub fn check_member(&self, rid: &RelationshipId, object: ObjectId, user: UserId) -> (r: Result<bool, MiniZError>)
        requires
            self.wf(),
        ensures
            r == self.view().check(rid@, object@, user@),
    {
        let ghost v = self.view();
        let ghost r0 = rid@;
        let ghost o0 = object@;
        let ghost u = user@;
        let start = match self.find_rel(rid) {
            Some(i) => i,
            None => {
                proof {
                    v.lemma_reaches_self(r0, o0);
                    assert(v.blocked(r0, o0));
                    self.lemma_not_holds_undefined(r0, o0, u);
                }
                return Err(MiniZError::UnknownRelationship);
            },
        };
        let mut objs: Vec<ObjectId> = Vec::new();
        objs.push(object);
        let mut k: usize = 0;
        while k < self.tuples.len()
            invariant
                k <= self.tuples.len(),
                objs.len() == k + 1,
                objs@[0]@ == o0,
                forall|q: int| 0 <= q < k ==> #[trigger] objs@[q + 1]@ == self.view().tuples[q].object,
            decreases self.tuples.len() - k,
        {
            proof {
                assert(self.view().tuples[k as int] == self.tuples@[k as int]@);
            }
            objs.push(self.tuples[k].object.clone());
            k = k + 1;
        }
        let nr: usize = self.rels.len();
        let no: usize = objs.len();
        let mut marked: Vec<Vec<bool>> = Vec::new();
        let mut a: usize = 0;
        while a < nr
            invariant
                a <= nr,
                marked.len() == a,
                forall|x: int| 0 <= x < a ==> (#[trigger] marked@[x]).len() == no,
                forall|x: int, y: int| 0 <= x < a && 0 <= y < no ==> !(#[trigger] marked@[x]@[y]),
            decreases nr - a,
        {
            let mut row: Vec<bool> = Vec::new();
            let mut b: usize = 0;
            while b < no
                invariant
                    b <= no,
                    row.len() == b,
                    forall|y: int| 0 <= y < b ==> !(#[trigger] row@[y]),
                decreases no - b,
            {
                row.push(false);
                b = b + 1;
            }
            marked.push(row);
            a = a + 1;
        }
        let ghost m0 = marked@;
        mark(&mut marked, start, 0);
        let mut order: Vec<(usize, usize)> = Vec::new();
        order.push((start, 0));
        let mut missing = false;
        proof {
            v.lemma_reaches_self(r0, o0);
            assert(self.cell_sound(objs@, r0, o0, start as int, 0));
            assert(marked@[start as int]@[0]);
            assert forall|x: int, y: int|
                0 <= x < marked.len() && 0 <= y < objs.len() && #[trigger] marked@[x]@[y] implies exists|p: int|
                    0 <= p < order.len() && #[trigger] order@[p] == (x as usize, y as usize) by {
                assert(!m0[x]@[y]);
                assert(order@[0] == (x as usize, y as usize));
            }
            assert(self.covers(objs@, marked@, r0, o0));
        }
        let user_m = Member::User(user);
        let mut next: usize = 0;
        while next < order.len()
            invariant
                self.search_inv(objs@, marked@, order@, next as int, missing, r0, o0, u),
                user_m@ == MemberView::User(u),
                v == self.view(),
                r0 == rid@,
                o0 == object@,
                u == user@,
            decreases 2 * unmarked(marked@) + order.len() - next,
        {
            let (ri, oi) = order[next];
            next = next + 1;
            let ghost bound = 2 * unmarked(marked@) + order.len();
            let rel = &self.rels[ri];
            assert(self.cell_sound(objs@, r0, o0, ri as int, oi as int)) by {
                assert(order@[next - 1] == (ri, oi));
            }
            if self.has_tuple(&rel.rid, &objs[oi], &user_m) {
                proof {
                    assert(v.holds(r0, o0, u)) by {
                        assert(v.reaches(r0, o0, rel.rid@, objs@[oi as int]@));
                    }
                }
                return Ok(true);
            }
            let ghost rr = rel.rid@;
            let ghost oo = objs@[oi as int]@;
            let mut j: usize = 0;
            while j < rel.contained.len()
                invariant
                    self.search_inv(objs@, marked@, order@, next - 1, missing, r0, o0, u),
                    0 < next <= order.len(),
                    order@[next - 1] == (ri, oi),
                    rel == &self.rels@[ri as int],
                    rr == rel.rid@,
                    oo == objs@[oi as int]@,
                    self.cell_sound(objs@, r0, o0, ri as int, oi as int),
                    j <= rel.contained.len(),
                    forall|q: int| 0 <= q < j ==> {
                        &&& v.defined((#[trigger] rel.contained@[q])@) ==> self.covers(objs@, marked@, rel.contained@[q]@, oo)
                        &&& !v.defined(rel.contained@[q]@) ==> missing
                    },
                    2 * unmarked(marked@) + order.len() <= bound,
                    v == self.view(),
                decreases rel.contained.len() - j,
            {
                let c = &rel.contained[j];
                proof {
                    assert(name_set(rel.contained@).contains(c@));
                    assert(v.step(rr, oo, c@, oo));
                    v.lemma_reaches_step(r0, o0, rr, oo, c@, oo);
                }
                match self.find_rel(c) {
                    None => {
                        proof {
                            assert(v.blocked(r0, o0));
                            self.lemma_inv_missing(objs@, marked@, order@, next - 1, missing, r0, o0, u);
                        }
                        missing = true;
                    },
                    Some(ci) => {
                        assert(marked@[ci as int].len() == objs.len());
                        if !marked[ci][oi] {
                            let ghost m1 = marked@;
                            assert(self.cell_sound(objs@, r0, o0, ci as int, oi as int));
                            mark(&mut marked, ci, oi);
                            proof {
                                self.lemma_inv_mark(objs@, m1, marked@, order@, next - 1, missing, r0, o0, u, ci, oi);
                            }
                            order.push((ci, oi));
                        } else {
                            assert(self.covers(objs@, marked@, c@, oo));
                        }
                    },
                }
                j = j + 1;
            }
            let facts = self.facts_of(&Member::Object(objs[oi].clone()));
            let mut y: usize = 0;
            while y < facts.len()
                invariant
                    self.search_inv(objs@, marked@, order@, next - 1, missing, r0, o0, u),
                    0 < next <= order.len(),
                    order@[next - 1] == (ri, oi),
                    rel == &self.rels@[ri as int],
                    rr == rel.rid@,
                    oo == objs@[oi as int]@,
                    self.cell_sound(objs@, r0, o0, ri as int, oi as int),
                    forall|q: int| 0 <= q < rel.contained.len() ==> {
                        &&& v.defined((#[trigger] rel.contained@[q])@) ==> self.covers(objs@, marked@, rel.contained@[q]@, oo)
                        &&& !v.defined(rel.contained@[q]@) ==> missing
                    },
                    forall|x: int|
                        0 <= x < facts.len() ==> (#[trigger] facts@[x]) < self.tuples.len() && v.tuples[facts@[x] as int].member
                            == MemberView::Object(oo),
                    y <= facts.len(),
                    forall|z: int| 0 <= z < y ==> {
                        let t = v.tuples[(#[trigger] facts@[z]) as int];
                        name_set(rel.inherited@).contains(t.rel) ==> self.covers(objs@, marked@, rr, t.object)
                    },
                    2 * unmarked(marked@) + order.len() <= bound,
                    v == self.view(),
                decreases facts.len() - y,
            {
                let k = facts[y];
                let t = &self.tuples[k];
                proof {
                    assert(v.tuples[k as int] == t@);
                }
                if contains_name(&rel.inherited, &t.rid) {
                    proof {
                        assert(v.tuples[k as int] == (TupleView { rel: t.rid@, object: t.object@, member: MemberView::Object(oo) }));
                        assert(v.has_tuple(t.rid@, t.object@, MemberView::Object(oo)));
                        assert(v.schema[rr].inherited.contains(t.rid@));
                        assert(v.inherits_from(rr, oo, t.object@));
                        assert(v.step(rr, oo, rr, t.object@));
                        v.lemma_reaches_step(r0, o0, rr, oo, rr, t.object@);
                    }
                    let kk: usize = k + 1;
                    assert(marked@[ri as int].len() == objs.len());
                    if !marked[ri][kk] {
                        let ghost m1 = marked@;
                        assert(objs@[kk as int]@ == t.object@);
                        assert(self.cell_sound(objs@, r0, o0, ri as int, kk as int));
                        mark(&mut marked, ri, kk);
                        proof {
                            self.lemma_inv_mark(objs@, m1, marked@, order@, next - 1, missing, r0, o0, u, ri, kk);
                        }
                        order.push((ri, kk));
                    } else {
                        assert(objs@[kk as int]@ == t.object@);
                        assert(self.covers(objs@, marked@, rr, t.object@));
                    }
                }
                y = y + 1;
            }
            proof {
                assert forall|r2: Seq<char>, o2: Seq<char>| #[trigger] v.step(rr, oo, r2, o2) implies {
                    &&& v.defined(r2) ==> self.covers(objs@, marked@, r2, o2)
                    &&& !v.defined(r2) ==> missing
                } by {
                    if o2 == oo && v.schema[rr].contained.contains(r2) {
                        let q = choose|q: int| 0 <= q < rel.contained.len() && #[trigger] rel.contained@[q]@ == r2;
                        assert(rel.contained@[q]@ == r2);
                    } else {
                        let e = choose|e: Seq<char>|
                            #[trigger] v.schema[rr].inherited.contains(e) && v.has_tuple(e, o2, MemberView::Object(oo));
                        let q = choose|q: int|
                            0 <= q < v.tuples.len() && #[trigger] v.tuples[q] == (TupleView {
                                rel: e,
                                object: o2,
                                member: MemberView::Object(oo),
                            });
                        assert(facts@.contains(q as usize));
                        let z = choose|z: int| 0 <= z < facts.len() && facts@[z] == q as usize;
                        assert(v.tuples[facts@[z] as int] == v.tuples[q]);
                    }
                }
                assert(self.cell_done(objs@, marked@, missing, u, ri as int, oi as int));
                assert forall|p: int| 0 <= p < next implies self.cell_done(objs@, marked@, missing, u, (#[trigger] order@[p]).0 as int, order@[p].1 as int) by {
                    if p == next - 1 {
                        assert(order@[p] == (ri, oi));
                    }
                }
            }
        }
        proof {
            self.lemma_search_result(objs@, marked@, order@, missing, r0, o0, u);
        }
        if missing {
            Err(MiniZError::UnknownRelationship)
        } else {
            Ok(false)
        }
    }

    /// Without a definition of `r0`, no fact resolves it.
    proof fn lemma_not_holds_undefined(&self, r0: Seq<char>, o0: Seq<char>, u: Seq<char>)
        requires
            self.wf(),
            !self.view().defined(r0),
        ensures
            !self.view().holds(r0, o0, u),
    {
        let v = self.view();
        if v.holds(r0, o0, u) {
            let (r2, o2) = choose|r2: Seq<char>, o2: Seq<char>|
                #[trigger] v.reaches(r0, o0, r2, o2) && v.has_tuple(r2, o2, MemberView::User(u));
            let p = choose|p: Seq<(Seq<char>, Seq<char>)>| #[trigger] v.is_path(p, r0, o0) && p.last() == (r2, o2);
            if p.len() > 1 {
                let i = 0int;
                assert(v.step(p[i].0, p[i].1, p[i + 1].0, p[i + 1].1));
            } else {
                let i = choose|i: int|
                    0 <= i < v.tuples.len() && #[trigger] v.tuples[i] == (TupleView {
                        rel: r2,
                        object: o2,
                        member: MemberView::User(u),
                    });
                assert(v.defined(v.tuples[i].rel));
            }
        }
    }

    /// The answer of a finished search.
    proof fn lemma_search_result(
        &self,
        objs: Seq<ObjectId>,
        marked: Seq<Vec<bool>>,
        order: Seq<(usize, usize)>,
        missing: bool,
        r0: Seq<char>,
        o0: Seq<char>,
        u: Seq<char>,
    )
        requires
            self.search_inv(objs, marked, order, order.len() as int, missing, r0, o0, u),
        ensures
            !self.view().holds(r0, o0, u),
            missing == self.view().blocked(r0, o0),
    {
        let v = self.view();
        if v.holds(r0, o0, u) {
            let (r2, o2) = choose|r2: Seq<char>, o2: Seq<char>|
                #[trigger] v.reaches(r0, o0, r2, o2) && v.has_tuple(r2, o2, MemberView::User(u));
            let p = choose|p: Seq<(Seq<char>, Seq<char>)>| #[trigger] v.is_path(p, r0, o0) && p.last() == (r2, o2);
            self.lemma_search_complete(objs, marked, order, missing, r0, o0, u, p);
            let i = choose|i: int|
                0 <= i < v.tuples.len() && #[trigger] v.tuples[i] == (TupleView {
                    rel: r2,
                    object: o2,
                    member: MemberView::User(u),
                });
            assert(v.defined(v.tuples[i].rel));
            let (x, y) = choose|x: int, y: int|
                0 <= x < marked.len() && 0 <= y < objs.len() && y < marked[x].len() && #[trigger] marked[x]@[y]
                    && self.rels@[x].rid@ == r2 && #[trigger] objs[y]@ == o2;
            let q = choose|q: int| 0 <= q < order.len() && #[trigger] order[q] == (x as usize, y as usize);
            assert(self.cell_done(objs, marked, missing, u, x, y));
        }
        if v.blocked(r0, o0) {
            let (r2, o2) = choose|r2: Seq<char>, o2: Seq<char>| #[trigger] v.reaches(r0, o0, r2, o2) && !v.defined(r2);
            let p = choose|p: Seq<(Seq<char>, Seq<char>)>| #[trigger] v.is_path(p, r0, o0) && p.last() == (r2, o2);
            self.lemma_search_complete(objs, marked, order, missing, r0, o0, u, p);
        }
    }
}

/// The members of the first `i` facts that are on (`r`, `o`).
spec fn members_before(tv: Seq<TupleView>, r: Seq<char>, o: Seq<char>, i: int) -> Set<MemberView> {
    Set::new(|x: MemberView| exists|q: int| 0 <= q < i && tv[q] == (TupleView { rel: r, object: o, member: x }))
}

/// The (relationship, object) pairs of the facts at the first `n`
/// positions of `facts`.
spec fn memberships_at(tv: Seq<TupleView>, facts: Seq<usize>, n: int) -> Set<(Seq<char>, Seq<char>)> {
    Set::new(
        |p: (Seq<char>, Seq<char>)| exists|z: int| 0 <= z < n && tv[facts[z] as int].rel == p.0 && tv[facts[z] as int].object == p.1,
    )
}

/// Some entry of `index` lists fact position `q`.
spec fn listed_in(index: Seq<IndexEntry>, q: int) -> bool {
    exists|e: int, x: int| 0 <= e < index.len() && 0 <= x < index[e].facts.len() && #[trigger] index[e].facts@[x] == q as usize
}

/// Number of unmarked cells in a row.
spec fn unmarked_row(row: Seq<bool>) -> nat
    decreases row.len(),
{
    if row.len() == 0 {
        0
    } else {
        unmarked_row(row.drop_last()) + if row.last() {
            0nat
        } else {
            1nat
        }
    }
}

/// Number of unmarked cells in a grid.
spec fn unmarked(m: Seq<Vec<bool>>) -> nat
    decreases m.len(),
{
    if m.len() == 0 {
        0
    } else {
        unmarked(m.drop_last()) + unmarked_row(m.last()@)
    }
}

proof fn lemma_unmarked_row_set(row: Seq<bool>, j: int)
    requires
        0 <= j < row.len(),
        !row[j],
    ensures
        unmarked_row(row.update(j, true)) + 1 == unmarked_row(row),
    decreases row.len(),
{
    let r2 = row.update(j, true);
    if j < row.len() - 1 {
        assert(r2.drop_last() =~= row.drop_last().update(j, true));
        lemma_unmarked_row_set(row.drop_last(), j);
    } else {
        assert(r2.drop_last() =~= row.drop_last());
    }
}

proof fn lemma_unmarked_set(m: Seq<Vec<bool>>, i: int, row: Vec<bool>)
    requires
        0 <= i < m.len(),
        unmarked_row(row@) + 1 == unmarked_row(m[i]@),
    ensures
        unmarked(m.update(i, row)) + 1 == unmarked(m),
    decreases m.len(),
{
    let m2 = m.update(i, row);
    if i < m.len() - 1 {
        assert(m2.drop_last() =~= m.drop_last().update(i, row));
        lemma_unmarked_set(m.drop_last(), i, row);
    } else {
        assert(m2.drop_last() =~= m.drop_last());
    }
}

/// Marks cell (`i`, `j`).
fn mark(marked: &mut Vec<Vec<bool>>, i: usize, j: usize)
    requires
        i < old(marked).len(),
        j < old(marked)@[i as int].len(),
        !old(marked)@[i as int]@[j as int],
    ensures
        final(marked).len() == old(marked).len(),
        forall|a: int| 0 <= a < old(marked).len() ==> (#[trigger] final(marked)@[a]).len() == old(marked)@[a].len(),
        forall|a: int, b: int|
            0 <= a < old(marked).len() && 0 <= b < old(marked)@[a].len() ==> #[trigger] final(marked)@[a]@[b] == (
            old(marked)@[a]@[b] || (a == i && b == j)),
        unmarked(final(marked)@) + 1 == unmarked(old(marked)@),
{
    proof {
        lemma_unmarked_row_set(marked@[i as int]@, j as int);
    }
    marked[i].set(j, true);
    proof {
        lemma_unmarked_set(old(marked)@, i as int, marked@[i as int]);
        assert(marked@ =~= old(marked)@.update(i as int, marked@[i as int]));
    }
}

/// Whether some identifier in `ids` names `x`.
fn contains_name(ids: &Vec<RelationshipId>, x: &RelationshipId) -> (r: bool)
    ensures
        r == name_set(ids@).contains(x@),
{
    let mut i: usize = 0;
    while i < ids.len()
        invariant
            i <= ids.len(),
            forall|k: int| 0 <= k < i ==> ids@[k]@ != x@,
        decreases ids.len() - i,
    {
        if ids[i].name == x.name {
            assert(ids@[i as int]@ == x@);
            return true;
        }
        i = i + 1;
    }
    false
}

} // verus!
