use miniz::{Member, Membership, MiniZ, MiniZError, ObjectId, RelationshipId, UserId};

fn obj(s: &str) -> ObjectId {
    ObjectId::new(s)
}

fn user(s: &str) -> UserId {
    UserId::new(s)
}

#[test]
fn write_then_read_back() {
    let mut b = MiniZ::builder();
    let owner = b.new_set("owner").build();
    let mut z = b.build();
    z.write_user(&owner, obj("doc"), user("ann")).unwrap();
    assert!(z.set_contains_user_directly(&owner, &obj("doc"), user("ann")).unwrap());
    assert_eq!(z.set_list_direct_members(&owner, &obj("doc")).unwrap(), vec![Member::User(user("ann"))]);
    assert_eq!(
        z.user_lookup_memberships(user("ann")),
        vec![Membership { rid: owner.clone(), object: obj("doc") }]
    );
}

#[test]
fn duplicate_write_is_refused() {
    let mut b = MiniZ::builder();
    let owner = b.new_set("owner").build();
    let parent = b.new_set("parent").build();
    let mut z = b.build();
    assert_eq!(z.write_user(&owner, obj("doc"), user("ann")), Ok(()));
    assert_eq!(z.write_user(&owner, obj("doc"), user("ann")), Err(MiniZError::DuplicateTuple));
    assert_eq!(z.write_object(&parent, obj("dir"), obj("doc")), Ok(()));
    assert_eq!(z.write_object(&parent, obj("dir"), obj("doc")), Err(MiniZError::DuplicateTuple));
    assert_eq!(z.set_list_direct_members(&owner, &obj("doc")).unwrap().len(), 1);
    assert_eq!(z.object_lookup_memberships(obj("doc")).len(), 1);
}

#[test]
fn unknown_relationship_is_refused() {
    let mut b = MiniZ::builder();
    let _owner = b.new_set("owner").build();
    let mut z = b.build();
    let nope = RelationshipId::new("nope");
    assert_eq!(z.write_user(&nope, obj("doc"), user("ann")), Err(MiniZError::UnknownRelationship));
    assert_eq!(z.write_object(&nope, obj("dir"), obj("doc")), Err(MiniZError::UnknownRelationship));
    assert_eq!(
        z.set_contains_user_directly(&nope, &obj("doc"), user("ann")),
        Err(MiniZError::UnknownRelationship)
    );
    assert_eq!(
        z.set_contains_object_directly(&nope, &obj("dir"), obj("doc")),
        Err(MiniZError::UnknownRelationship)
    );
    assert_eq!(z.set_list_direct_members(&nope, &obj("doc")), Err(MiniZError::UnknownRelationship));
    assert_eq!(z.check_member(&nope, obj("doc"), user("ann")), Err(MiniZError::UnknownRelationship));
}

#[test]
fn unwritten_object_has_no_members() {
    let mut b = MiniZ::builder();
    let owner = b.new_set("owner").build();
    let mut z = b.build();
    z.write_user(&owner, obj("doc"), user("ann")).unwrap();
    assert_eq!(z.set_contains_user_directly(&owner, &obj("other"), user("ann")), Ok(false));
    assert_eq!(z.set_contains_object_directly(&owner, &obj("other"), obj("doc")), Ok(false));
    assert_eq!(z.set_list_direct_members(&owner, &obj("other")), Ok(Vec::new()));
    assert_eq!(z.object_lookup_memberships(obj("other")), Vec::new());
    assert_eq!(z.user_lookup_memberships(user("bob")), Vec::new());
}

#[test]
fn members_listed_in_canonical_order() {
    let mut b = MiniZ::builder();
    let viewer = b.new_set("viewer").build();
    let owner = b.new_set("owner").build();
    let mut z = b.build();
    z.write_user(&viewer, obj("doc"), user("zed")).unwrap();
    z.write_object(&viewer, obj("doc"), obj("team")).unwrap();
    z.write_user(&viewer, obj("doc"), user("amy")).unwrap();
    z.write_user(&viewer, obj("pad"), user("amy")).unwrap();
    z.write_user(&owner, obj("doc"), user("amy")).unwrap();
    assert_eq!(
        z.set_list_direct_members(&viewer, &obj("doc")).unwrap(),
        vec![Member::Object(obj("team")), Member::User(user("amy")), Member::User(user("zed"))]
    );
    assert_eq!(
        z.user_lookup_memberships(user("amy")),
        vec![
            Membership { rid: owner.clone(), object: obj("doc") },
            Membership { rid: viewer.clone(), object: obj("doc") },
            Membership { rid: viewer.clone(), object: obj("pad") },
        ]
    );
}

#[test]
fn names_compare_by_character() {
    let mut b = MiniZ::builder();
    let viewer = b.new_set("viewer").build();
    let mut z = b.build();
    for name in ["b", "ab", "a", "B", "\u{e9}", "aa"] {
        z.write_user(&viewer, obj("doc"), user(name)).unwrap();
    }
    let listed: Vec<Member> = z.set_list_direct_members(&viewer, &obj("doc")).unwrap();
    let expected: Vec<Member> =
        ["B", "a", "aa", "ab", "b", "\u{e9}"].iter().map(|n| Member::User(user(n))).collect();
    assert_eq!(listed, expected);
}

#[test]
fn object_and_user_of_one_name_differ() {
    let mut b = MiniZ::builder();
    let viewer = b.new_set("viewer").build();
    let mut z = b.build();
    z.write_user(&viewer, obj("doc"), user("x")).unwrap();
    assert_eq!(z.set_contains_object_directly(&viewer, &obj("doc"), obj("x")), Ok(false));
    assert_eq!(z.write_object(&viewer, obj("doc"), obj("x")), Ok(()));
    assert_eq!(z.object_lookup_memberships(obj("x")).len(), 1);
    assert_eq!(z.user_lookup_memberships(user("x")).len(), 1);
}

#[test]
fn implication_is_transitive() {
    let mut b = MiniZ::builder();
    let r1 = b.new_set("r1").build();
    let r2 = b.new_set("r2").with_subset(&r1).build();
    let r3 = b.new_set("r3").with_subset(&r2).build();
    let mut z = b.build();
    z.write_user(&r1, obj("o"), user("u")).unwrap();
    assert_eq!(z.check_member(&r1, obj("o"), user("u")), Ok(true));
    assert_eq!(z.check_member(&r2, obj("o"), user("u")), Ok(true));
    assert_eq!(z.check_member(&r3, obj("o"), user("u")), Ok(true));
    assert_eq!(z.check_member(&r3, obj("p"), user("u")), Ok(false));
    assert_eq!(z.check_member(&r3, obj("o"), user("v")), Ok(false));
}

#[test]
fn viewers_pass_down_through_parent_edge() {
    let mut b = MiniZ::builder();
    let parent = b.new_set("parent").build();
    let viewer = b.new_set("viewer").with_inherited_set(&parent).build();
    let mut z = b.build();
    z.write_object(&parent, obj("folder"), obj("file")).unwrap();
    z.write_user(&viewer, obj("folder"), user("vic")).unwrap();
    z.write_user(&parent, obj("folder"), user("pat")).unwrap();
    // A viewer of the container is a viewer of the object it contains.
    assert_eq!(z.check_member(&viewer, obj("folder"), user("vic")), Ok(true));
    assert_eq!(z.check_member(&viewer, obj("file"), user("vic")), Ok(true));
    // Holding the edge relationship itself grants nothing.
    assert_eq!(z.check_member(&viewer, obj("file"), user("pat")), Ok(false));
    // Inheritance does not run from the contained object up to its container.
    z.write_user(&viewer, obj("file"), user("kim")).unwrap();
    assert_eq!(z.check_member(&viewer, obj("folder"), user("kim")), Ok(false));
}

#[test]
fn inheritance_chains_through_levels() {
    let mut b = MiniZ::builder();
    let parent = b.new_set("parent").build();
    let viewer = b.new_set("viewer").with_inherited_set(&parent).build();
    let mut z = b.build();
    z.write_object(&parent, obj("root"), obj("mid")).unwrap();
    z.write_object(&parent, obj("mid"), obj("leaf")).unwrap();
    z.write_user(&viewer, obj("root"), user("ria")).unwrap();
    z.write_user(&viewer, obj("mid"), user("max")).unwrap();
    assert_eq!(z.check_member(&viewer, obj("leaf"), user("ria")), Ok(true));
    assert_eq!(z.check_member(&viewer, obj("mid"), user("ria")), Ok(true));
    assert_eq!(z.check_member(&viewer, obj("leaf"), user("max")), Ok(true));
    assert_eq!(z.check_member(&viewer, obj("root"), user("max")), Ok(false));
}

#[test]
fn implication_is_one_way() {
    let mut b = MiniZ::builder();
    let owner = b.new_set("owner").build();
    let viewer = b.new_set("viewer").with_subset(&owner).build();
    let mut z = b.build();
    z.write_user(&viewer, obj("doc"), user("val")).unwrap();
    assert_eq!(z.check_member(&viewer, obj("doc"), user("val")), Ok(true));
    assert_eq!(z.check_member(&owner, obj("doc"), user("val")), Ok(false));
}

#[test]
fn worked_example_checks() {
    let mut b = MiniZ::builder();
    let owner = b.new_set("owner").build();
    let parent = b.new_set("parent").build();
    let editor = b.new_set("editor").with_subset(&owner).build();
    let viewer = b.new_set("viewer").with_subset(&editor).with_inherited_set(&parent).build();
    let mut z = b.build();
    z.write_object(&parent, obj("dir1"), obj("doc123")).unwrap();
    z.write_user(&owner, obj("dir1"), user("alice")).unwrap();
    z.write_user(&editor, obj("dir1"), user("bob")).unwrap();
    z.write_user(&viewer, obj("dir1"), user("carol")).unwrap();
    z.write_user(&owner, obj("doc123"), user("dan")).unwrap();
    assert_eq!(z.check_member(&viewer, obj("dir1"), user("alice")), Ok(true));
    assert_eq!(z.check_member(&viewer, obj("dir1"), user("bob")), Ok(true));
    assert_eq!(z.check_member(&viewer, obj("dir1"), user("carol")), Ok(true));
    assert_eq!(z.check_member(&editor, obj("dir1"), user("carol")), Ok(false));
    assert_eq!(z.check_member(&owner, obj("dir1"), user("bob")), Ok(false));
    assert_eq!(z.check_member(&viewer, obj("doc123"), user("dan")), Ok(true));
    // doc123 inherits the viewers of dir1 through the parent edge.
    assert_eq!(z.check_member(&viewer, obj("doc123"), user("alice")), Ok(true));
    assert_eq!(z.check_member(&viewer, obj("doc123"), user("bob")), Ok(true));
    assert_eq!(z.check_member(&viewer, obj("doc123"), user("carol")), Ok(true));
    assert_eq!(z.check_member(&editor, obj("doc123"), user("alice")), Ok(false));
    assert_eq!(z.check_member(&viewer, obj("dir1"), user("dan")), Ok(false));
}

#[test]
fn cyclic_schema_terminates() {
    let mut b = MiniZ::builder();
    let a_id = RelationshipId::new("a");
    let b_id = b.new_set("b").with_subset(&a_id).build();
    let a_id2 = b.new_set("a").with_subset(&b_id).build();
    assert_eq!(a_id, a_id2);
    let mut z = b.build();
    assert_eq!(z.check_member(&a_id, obj("o"), user("u")), Ok(false));
    z.write_user(&b_id, obj("o"), user("u")).unwrap();
    assert_eq!(z.check_member(&a_id, obj("o"), user("u")), Ok(true));
    assert_eq!(z.check_member(&b_id, obj("o"), user("u")), Ok(true));
}

#[test]
fn cyclic_facts_terminate() {
    let mut b = MiniZ::builder();
    let parent = b.new_set("parent").with_inherited_set(&RelationshipId::new("parent")).build();
    let mut z = b.build();
    z.write_object(&parent, obj("x"), obj("y")).unwrap();
    z.write_object(&parent, obj("y"), obj("x")).unwrap();
    assert_eq!(z.check_member(&parent, obj("x"), user("u")), Ok(false));
    z.write_user(&parent, obj("y"), user("u")).unwrap();
    assert_eq!(z.check_member(&parent, obj("x"), user("u")), Ok(true));
}

#[test]
fn undefined_rule_target_is_reported() {
    let mut b = MiniZ::builder();
    let ghost = RelationshipId::new("ghost");
    let x = b.new_set("x").with_subset(&ghost).build();
    let mut z = b.build();
    assert_eq!(z.check_member(&x, obj("o"), user("u")), Err(MiniZError::UnknownRelationship));
    z.write_user(&x, obj("o"), user("u")).unwrap();
    assert_eq!(z.check_member(&x, obj("o"), user("u")), Ok(true));
    assert_eq!(z.check_member(&x, obj("o"), user("w")), Err(MiniZError::UnknownRelationship));
}

#[test]
fn redefinition_replaces_rules() {
    let mut b = MiniZ::builder();
    let owner = b.new_set("owner").build();
    let _first = b.new_set("editor").with_subset(&owner).build();
    let editor = b.new_set("editor").build();
    let mut z = b.build();
    z.write_user(&owner, obj("doc"), user("ann")).unwrap();
    assert_eq!(z.check_member(&editor, obj("doc"), user("ann")), Ok(false));
}

#[test]
fn identifiers_keep_their_names() {
    assert_eq!(RelationshipId::new("owner").name, "owner");
    assert_eq!(ObjectId::new("doc").name, "doc");
    assert_eq!(UserId::new("ann").name, "ann");
    let mut b = MiniZ::builder();
    let owner = b.new_set("owner").build();
    assert_eq!(owner, RelationshipId::new("owner"));
}
