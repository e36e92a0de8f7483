use commit_message_lints::author::{Author, Authors};

#[test]
fn has_an_author() {
    let author = Author::new("The Name", "email@example.com", None);

    assert_eq!(author.name(), "The Name");
    assert_eq!(author.email(), "email@example.com");
    assert_eq!(author.signingkey(), None);
}

#[test]
fn has_an_signing_key() {
    let author = Author::new("The Name", "email@example.com", Some("0A46826A"));

    assert_eq!(author.signingkey(), Some("0A46826A".into()));
}

#[test]
fn it_can_get_an_author_in_it() {
    let mut store: Vec<(String, Author)> = Vec::new();
    store.push((
        "bt".into(),
        Author::new("Billie Thompson", "billie@example.com", None),
    ));
    let actual = Authors::new(store);

    assert_eq!(
        actual.get(&vec!["bt".to_string()]),
        vec![Some(Author::new(
            "Billie Thompson",
            "billie@example.com",
            None,
        ))]
    )
}

#[test]
fn i_can_get_multiple_authors_out_at_the_same_time() {
    let mut store: Vec<(String, Author)> = Vec::new();
    store.push((
        "bt".into(),
        Author::new("Billie Thompson", "billie@example.com", None),
    ));
    store.push((
        "se".into(),
        Author::new("Somebody Else", "somebody@example.com", None),
    ));
    let actual = Authors::new(store);

    assert_eq!(
        actual.get(&vec!["bt".to_string()]),
        vec![Some(Author::new(
            "Billie Thompson",
            "billie@example.com",
            None,
        ))]
    );
    assert_eq!(
        actual.get(&vec!["se".to_string()]),
        vec![Some(Author::new(
            "Somebody Else",
            "somebody@example.com",
            None,
        ))]
    )
}

#[test]
fn lookup_preserves_order_and_duplicates() {
    let store = vec![(
        "a".to_string(),
        Author::new("Ann Author", "ann@example.com", None),
    )];
    let actual = Authors::new(store);

    let slots = actual.get(&vec!["a".to_string(), "b".to_string(), "a".to_string()]);
    assert_eq!(
        slots,
        vec![
            Some(Author::new("Ann Author", "ann@example.com", None)),
            None,
            Some(Author::new("Ann Author", "ann@example.com", None)),
        ]
    );
}

#[test]
fn later_entries_replace_earlier_ones_with_the_same_initials() {
    let store = vec![
        (
            "bt".to_string(),
            Author::new("Old Name", "old@example.com", None),
        ),
        (
            "bt".to_string(),
            Author::new("New Name", "new@example.com", None),
        ),
    ];
    let actual = Authors::new(store);

    assert_eq!(
        actual.get(&vec!["bt".to_string()]),
        vec![Some(Author::new("New Name", "new@example.com", None))]
    );
}

#[test]
fn registries_with_the_same_entries_are_equal_whatever_the_input_order() {
    let a = Authors::new(vec![
        ("bt".to_string(), Author::new("B", "b@example.com", None)),
        ("se".to_string(), Author::new("S", "s@example.com", None)),
    ]);
    let b = Authors::new(vec![
        ("se".to_string(), Author::new("S", "s@example.com", None)),
        ("bt".to_string(), Author::new("B", "b@example.com", None)),
    ]);
    assert_eq!(a, b);
}
