use commit_message_lints::author::{Author, Authors};
use commit_message_lints::yaml::{decode, encode};

#[test]
fn must_be_valid_yaml() {
    let actual = decode("Hello I am invalid yaml : : :");
    assert_eq!(true, actual.is_err())
}

#[test]
fn it_can_parse_a_standard_yaml_file() {
    let actual = decode("---\nbt:\n    name: Billie Thompson\n    email: billie@example.com\n");

    let input = vec![(
        "bt".to_string(),
        Author::new("Billie Thompson", "billie@example.com", None),
    )];
    let expected = Ok(Authors::new(input));

    assert_eq!(expected, actual);
}

#[test]
fn yaml_files_can_contain_signing_keys() {
    let actual = decode(
        "---\nbt:\n    name: Billie Thompson\n    email: billie@example.com\n    signingkey: 0A46826A\n",
    );

    let expected_authors = vec![(
        "bt".to_string(),
        Author::new("Billie Thompson", "billie@example.com", Some("0A46826A")),
    )];
    let expected = Ok(Authors::new(expected_authors));

    assert_eq!(expected, actual);
}

#[test]
fn it_converts_to_standard_yaml() {
    let map = vec![(
        "bt".to_string(),
        Author::new("Billie Thompson", "billie@example.com", None),
    )];
    let actual = encode(&Authors::new(map));
    let expected = "---\nbt:\n  name: Billie Thompson\n  email: billie@example.com".to_string();

    assert_eq!(expected, actual);
}

#[test]
fn it_includes_the_signing_key_if_set() {
    let map = vec![(
        "bt".to_string(),
        Author::new("Billie Thompson", "billie@example.com", Some("0A46826A")),
    )];
    let actual = encode(&Authors::new(map));
    let expected =
        "---\nbt:\n  name: Billie Thompson\n  email: billie@example.com\n  signingkey: 0A46826A"
            .to_string();

    assert_eq!(expected, actual);
}

#[test]
fn decode_undoes_encode() {
    let authors = Authors::new(vec![
        (
            "bt".to_string(),
            Author::new("Billie Thompson", "billie@example.com", None),
        ),
        (
            "se".to_string(),
            Author::new("Somebody Else", "somebody@example.com", Some("0A46826A")),
        ),
    ]);
    let round_tripped = decode(encode(&authors).as_str());
    assert_eq!(Ok(authors), round_tripped);
}

#[test]
fn an_empty_registry_round_trips() {
    let authors = Authors::new(Vec::new());
    assert_eq!("---", encode(&authors));
    assert_eq!(Ok(authors), decode("---"));
}

#[test]
fn a_document_missing_the_email_is_rejected() {
    assert!(decode("---\nbt:\n  name: Billie Thompson\n").is_err());
}
