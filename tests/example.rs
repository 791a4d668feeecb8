use miniz::{Member, Membership, MiniZ, ObjectId, UserId};

#[test]
fn test_example() {
    /*
     * The configuration of Figure 1 of the Zanzibar paper, which describes
     * document-sharing authorization.
     */
    let mut miniz_builder = MiniZ::builder();
    let set_owner = miniz_builder.new_set("owner").build();
    let set_parent = miniz_builder.new_set("parent").build();
    let set_editor = miniz_builder.new_set("editor").with_subset(&set_owner).build();
    let set_viewer = miniz_builder
        .new_set("viewer")
        .with_subset(&set_editor)
        .with_inherited_set(&set_parent)
        .build();
    let mut miniz = miniz_builder.build();

    /*
     * This hierarchy of objects (defined by the "parent" relationship):
     *
     *    "dir1"                  owner: "alice"
     *      |                     editor: "bob"
     *      | "parent"            viewer: "carol"
     *      v
     *    "doc123"                owner: "dan"
     *                            editor: "eve"
     *                            viewer: "faythe"
     *
     *    "dir2"                  owner: "heidi"
     *      |                     editor: "ivan"
     *      |                     viewer: "judy"
     *      v
     *    "doc456"                owner: "oscar"
     */
    let dir1 = ObjectId::new("dir1");
    let dir2 = ObjectId::new("dir2");
    let dir3 = ObjectId::new("dir3");
    let doc123 = ObjectId::new("doc123");
    let doc456 = ObjectId::new("doc456");
    let doc789 = ObjectId::new("doc789");

    let user_alice = UserId::new("alice");
    let user_bob = UserId::new("bob");
    let user_carol = UserId::new("carol");
    let user_dan = UserId::new("dan");
    let user_eve = UserId::new("eve");
    let user_faythe = UserId::new("faythe");
    let user_heidi = UserId::new("heidi");
    let user_ivan = UserId::new("ivan");
    let user_judy = UserId::new("judy");
    let user_oscar = UserId::new("oscar");

    miniz.write_object(&set_parent, dir1.clone(), doc123.clone()).unwrap();
    miniz.write_user(&set_owner, dir1.clone(), user_alice.clone()).unwrap();
    miniz.write_user(&set_editor, dir1.clone(), user_bob.clone()).unwrap();
    miniz.write_user(&set_viewer, dir1.clone(), user_carol.clone()).unwrap();

    miniz.write_user(&set_owner, doc123.clone(), user_dan.clone()).unwrap();
    miniz.write_user(&set_editor, doc123.clone(), user_eve.clone()).unwrap();
    miniz.write_user(&set_viewer, doc123.clone(), user_faythe.clone()).unwrap();

    miniz.write_object(&set_parent, dir2.clone(), doc456.clone()).unwrap();
    miniz.write_user(&set_owner, dir2.clone(), user_heidi.clone()).unwrap();
    miniz.write_user(&set_editor, dir2.clone(), user_ivan.clone()).unwrap();
    miniz.write_user(&set_viewer, dir2.clone(), user_judy.clone()).unwrap();
    miniz.write_user(&set_owner, doc456.clone(), user_oscar.clone()).unwrap();

    /* Contents of "dir1" */
    assert!(miniz.set_contains_object_directly(&set_parent, &dir1, doc123.clone()).unwrap());
    assert!(!miniz.set_contains_object_directly(&set_parent, &dir1, doc456.clone()).unwrap());
    /* Contents of "dir2" */
    assert!(miniz.set_contains_object_directly(&set_parent, &dir2, doc456.clone()).unwrap());
    assert!(!miniz.set_contains_object_directly(&set_parent, &dir2, doc123.clone()).unwrap());
    /* Non-existent document is contained nowhere. */
    assert!(!miniz.set_contains_object_directly(&set_parent, &dir2, doc789.clone()).unwrap());
    assert!(!miniz.set_contains_object_directly(&set_parent, &dir2, doc789.clone()).unwrap());
    /* Non-existent set contains nothing */
    assert!(!miniz.set_contains_object_directly(&set_parent, &dir3, doc123.clone()).unwrap());
    assert!(!miniz.set_contains_object_directly(&set_parent, &dir3, doc123.clone()).unwrap());

    /* User associations (direct associations) for "dir1" */
    assert_eq!(
        miniz.set_list_direct_members(&set_owner, &dir1).unwrap(),
        vec![Member::User(user_alice.clone())]
    );
    assert!(miniz.set_contains_user_directly(&set_owner, &dir1, user_alice.clone()).unwrap());
    assert!(!miniz.set_contains_user_directly(&set_owner, &dir1, user_bob.clone()).unwrap());
    assert!(!miniz.set_contains_user_directly(&set_owner, &dir1, user_carol.clone()).unwrap());

    assert_eq!(
        miniz.set_list_direct_members(&set_editor, &dir1).unwrap(),
        vec![Member::User(user_bob.clone())]
    );
    assert!(!miniz.set_contains_user_directly(&set_editor, &dir1, user_alice.clone()).unwrap());
    assert!(miniz.set_contains_user_directly(&set_editor, &dir1, user_bob.clone()).unwrap());
    assert!(!miniz.set_contains_user_directly(&set_editor, &dir1, user_carol.clone()).unwrap());

    assert_eq!(
        miniz.set_list_direct_members(&set_viewer, &dir1).unwrap(),
        vec![Member::User(user_carol.clone())]
    );
    assert!(!miniz.set_contains_user_directly(&set_viewer, &dir1, user_alice.clone()).unwrap());
    assert!(!miniz.set_contains_user_directly(&set_viewer, &dir1, user_bob.clone()).unwrap());
    assert!(miniz.set_contains_user_directly(&set_viewer, &dir1, user_carol.clone()).unwrap());

    /* Reverse indexes */
    assert_eq!(miniz.object_lookup_memberships(dir1.clone()), Vec::<Membership>::new());
    assert_eq!(miniz.object_lookup_memberships(dir2.clone()), Vec::<Membership>::new());
    assert_eq!(
        miniz.object_lookup_memberships(doc123.clone()),
        vec![Membership { rid: set_parent.clone(), object: dir1.clone() }]
    );
    assert_eq!(
        miniz.user_lookup_memberships(user_alice.clone()),
        vec![Membership { rid: set_owner.clone(), object: dir1.clone() }]
    );

    /* "Check" API */
    assert!(miniz.check_member(&set_viewer, dir1.clone(), user_alice.clone()).unwrap());
    assert!(miniz.check_member(&set_viewer, dir1.clone(), user_bob.clone()).unwrap());
    assert!(miniz.check_member(&set_viewer, dir1.clone(), user_carol.clone()).unwrap());
    assert!(miniz.check_member(&set_editor, dir1.clone(), user_alice.clone()).unwrap());
    assert!(miniz.check_member(&set_editor, dir1.clone(), user_bob.clone()).unwrap());
    assert!(!miniz.check_member(&set_editor, dir1.clone(), user_carol.clone()).unwrap());
    assert!(miniz.check_member(&set_owner, dir1.clone(), user_alice.clone()).unwrap());
    assert!(!miniz.check_member(&set_owner, dir1.clone(), user_bob.clone()).unwrap());
    assert!(!miniz.check_member(&set_owner, dir1.clone(), user_carol.clone()).unwrap());
}
