//! Identifiers of objects, users and relationships, and the values that
//! pair them: members and memberships.
use vstd::prelude::*;

use crate::model::MemberView;

verus! {

/// Caller-chosen identifier of an object (a document, a folder, ...).
/// Two identifiers are equal when their names are.
#[derive(Debug)]
pub struct ObjectId {
    pub name: String,
}

/// Caller-chosen identifier of a user.
/// Two identifiers are equal when their names are.
#[derive(Debug)]
pub struct UserId {
    pub name: String,
}

/// Name of a relationship defined in a schema ("owner", "viewer", ...).
#[derive(Debug)]
pub struct RelationshipId {
    pub name: String,
}

/// Whoever holds a relationship on an object: another object or a user.
#[derive(Debug)]
pub enum Member {
    Object(ObjectId),
    User(UserId),
}

/// Reverse-index entry: the holder of this entry has relationship `rid`
/// with `object`.
#[derive(Debug)]
pub struct Membership {
    pub rid: RelationshipId,
    pub object: ObjectId,
}

/// Why a write or a query was refused.
#[derive(Debug, Clone, Copy, PartialEq, Eq, Structural)]
pub enum MiniZError {
    /// The relationship named is not defined by the schema, or resolution
    /// reached one that is not.
    UnknownRelationship,
    /// The exact (relationship, object, member) fact is already stored.
    DuplicateTuple,
}

impl View for ObjectId {
    type V = Seq<char>;

    open spec fn view(&self) -> Seq<char> {
        self.name@
    }
}

impl View for UserId {
    type V = Seq<char>;

    open spec fn view(&self) -> Seq<char> {
        self.name@
    }
}

impl View for RelationshipId {
    type V = Seq<char>;

    open spec fn view(&self) -> Seq<char> {
        self.name@
    }
}

impl View for Member {
    type V = MemberView;

    open spec fn view(&self) -> MemberView {
        match self {
            Member::Object(o) => MemberView::Object(o@),
            Member::User(u) => MemberView::User(u@),
        }
    }
}

impl View for Membership {
    type V = (Seq<char>, Seq<char>);

    open spec fn view(&self) -> (Seq<char>, Seq<char>) {
        (self.rid@, self.object@)
    }
}

impl ObjectId {
    pub fn new(name: &str) -> (r: ObjectId)
        ensures
            r@ == name@,
    {
        ObjectId { name: name.to_owned() }
    }
}

impl UserId {
    pub fn new(name: &str) -> (r: UserId)
        ensures
            r@ == name@,
    {
        UserId { name: name.to_owned() }
    }
}

impl RelationshipId {
    pub fn new(name: &str) -> (r: RelationshipId)
        ensures
            r@ == name@,
    {
        RelationshipId { name: name.to_owned() }
    }
}

impl Clone for ObjectId {
    fn clone(&self) -> (r: ObjectId)
        ensures
            r@ == self@,
    {
        ObjectId { name: self.name.clone() }
    }
}

impl Clone for UserId {
    fn clone(&self) -> (r: UserId)
        ensures
            r@ == self@,
    {
        UserId { name: self.name.clone() }
    }
}

impl Clone for RelationshipId {
    fn clone(&self) -> (r: RelationshipId)
        ensures
            r@ == self@,
    {
        RelationshipId { name: self.name.clone() }
    }
}

impl Clone for Member {
    fn clone(&self) -> (r: Member)
        ensures
            r@ == self@,
    {
        match self {
            Member::Object(o) => Member::Object(o.clone()),
            Member::User(u) => Member::User(u.clone()),
        }
    }
}

impl Clone for Membership {
    fn clone(&self) -> (r: Membership)
        ensures
            r@ == self@,
    {
        Membership { rid: self.rid.clone(), object: self.object.clone() }
    }
}

impl PartialEq for ObjectId {
    fn eq(&self, o: &ObjectId) -> (r: bool) {
        self.name == o.name
    }
}

impl vstd::std_specs::cmp::PartialEqSpecImpl for ObjectId {
    open spec fn obeys_eq_spec() -> bool {
        true
    }

    open spec fn eq_spec(&self, o: &ObjectId) -> bool {
        self@ == o@
    }
}

impl Eq for ObjectId {
}

impl PartialEq for UserId {
    fn eq(&self, o: &UserId) -> (r: bool) {
        self.name == o.name
    }
}

impl vstd::std_specs::cmp::PartialEqSpecImpl for UserId {
    open spec fn obeys_eq_spec() -> bool {
        true
    }

    open spec fn eq_spec(&self, o: &UserId) -> bool {
        self@ == o@
    }
}

impl Eq for UserId {
}

impl PartialEq for RelationshipId {
    fn eq(&self, o: &RelationshipId) -> (r: bool) {
        self.name == o.name
    }
}

impl vstd::std_specs::cmp::PartialEqSpecImpl for RelationshipId {
    open spec fn obeys_eq_spec() -> bool {
        true
    }

    open spec fn eq_spec(&self, o: &RelationshipId) -> bool {
        self@ == o@
    }
}

impl Eq for RelationshipId {
}

impl PartialEq for Member {
    fn eq(&self, o: &Member) -> (r: bool) {
        match (self, o) {
            (Member::Object(a), Member::Object(b)) => a.name == b.name,
            (Member::User(a), Member::User(b)) => a.name == b.name,
            _ => false,
        }
    }
}

impl vstd::std_specs::cmp::PartialEqSpecImpl for Member {
    open spec fn obeys_eq_spec() -> bool {
        true
    }

    open spec fn eq_spec(&self, o: &Member) -> bool {
        self@ == o@
    }
}

impl Eq for Member {
}

impl PartialEq for Membership {
    fn eq(&self, o: &Membership) -> (r: bool) {
        self.rid.name == o.rid.name && self.object.name == o.object.name
    }
}

impl vstd::std_specs::cmp::PartialEqSpecImpl for Membership {
    open spec fn obeys_eq_spec() -> bool {
        true
    }

    open spec fn eq_spec(&self, o: &Membership) -> bool {
        self@ == o@
    }
}

impl Eq for Membership {
}

} // verus!
