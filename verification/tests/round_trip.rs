use fuzzy_trie_index::EncodeError;
use fuzzy_trie_index::HostTerm;
use fuzzy_trie_index::ParseSupportedError;
use fuzzy_trie_index::SupportedTerm;

fn nested_host() -> HostTerm {
    HostTerm::Tuple(vec![
        HostTerm::Number(-3),
        HostTerm::AtomName(String::from("ok")),
        HostTerm::List(vec![
            HostTerm::Binary(String::from("payload")),
            HostTerm::Number(12),
        ]),
    ])
}

fn nested_term() -> SupportedTerm {
    SupportedTerm::Tuple(vec![
        SupportedTerm::Integer(-3),
        SupportedTerm::Atom(String::from("ok")),
        SupportedTerm::List(vec![
            SupportedTerm::Bitstring(String::from("payload")),
            SupportedTerm::Integer(12),
        ]),
    ])
}

#[test]
fn parse_maps_each_supported_kind() {
    assert_eq!(
        SupportedTerm::try_from(&HostTerm::Number(42)).unwrap(),
        SupportedTerm::Integer(42)
    );
    assert_eq!(
        SupportedTerm::try_from(&HostTerm::AtomName(String::from("hi"))).unwrap(),
        SupportedTerm::Atom(String::from("hi"))
    );
    assert_eq!(
        SupportedTerm::try_from(&HostTerm::Binary(String::from("raw"))).unwrap(),
        SupportedTerm::Bitstring(String::from("raw"))
    );
    assert_eq!(SupportedTerm::try_from(&nested_host()).unwrap(), nested_term());
}

#[test]
fn parse_rejects_opaque_terms() {
    assert_eq!(
        SupportedTerm::try_from(&HostTerm::Opaque),
        Err(ParseSupportedError::UnsupportedType)
    );
}

#[test]
fn one_opaque_element_fails_the_whole_value() {
    let bad = HostTerm::Tuple(vec![
        HostTerm::Number(1),
        HostTerm::List(vec![HostTerm::Opaque]),
    ]);
    assert_eq!(
        SupportedTerm::try_from(&bad),
        Err(ParseSupportedError::UnsupportedType)
    );
}

#[test]
fn render_then_parse_round_trips() {
    let v = nested_term();
    let rendered = v.encode().unwrap();
    let back = SupportedTerm::try_from(&rendered).unwrap();
    assert_eq!(back, v);
}

#[test]
fn render_rejects_an_overlong_atom_name() {
    let mut name = String::new();
    for _ in 0..256 {
        name.push('a');
    }
    let v = SupportedTerm::Atom(name);
    assert_eq!(v.encode(), Err(EncodeError::AtomTooLong));

    let nested = SupportedTerm::List(vec![
        SupportedTerm::Integer(1),
        SupportedTerm::Tuple(vec![v_long()]),
    ]);
    assert_eq!(nested.encode(), Err(EncodeError::AtomTooLong));
}

fn v_long() -> SupportedTerm {
    let mut name = String::new();
    for _ in 0..300 {
        name.push('x');
    }
    SupportedTerm::Atom(name)
}

#[test]
fn render_accepts_the_longest_legal_atom_name() {
    let mut name = String::new();
    for _ in 0..255 {
        name.push('a');
    }
    let v = SupportedTerm::Atom(name.clone());
    assert_eq!(v.encode().unwrap(), HostTerm::AtomName(name));
}
