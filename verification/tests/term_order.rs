use core::cmp::Ordering;
use fuzzy_trie_index::SupportedTerm;

fn samples() -> Vec<SupportedTerm> {
    vec![
        SupportedTerm::Integer(7),
        SupportedTerm::Atom(String::from("ok")),
        SupportedTerm::Tuple(vec![SupportedTerm::Integer(1)]),
        SupportedTerm::List(vec![SupportedTerm::Integer(1)]),
        SupportedTerm::Bitstring(String::from("abc")),
    ]
}

#[test]
fn cross_variant_ranking_is_total_and_antisymmetric() {
    let vals = samples();
    for (i, a) in vals.iter().enumerate() {
        for (j, b) in vals.iter().enumerate() {
            let ab = a.cmp(b);
            let ba = b.cmp(a);
            if i == j {
                assert_eq!(ab, Ordering::Equal);
                assert_eq!(ba, Ordering::Equal);
            } else {
                // exactly one direction is Less, and the orders mirror
                assert_ne!(ab, Ordering::Equal);
                assert_eq!((ab == Ordering::Less), (ba == Ordering::Greater));
                assert_eq!((ab == Ordering::Less), (i < j));
            }
        }
    }
}

#[test]
fn comparator_is_transitive_on_samples() {
    let vals = samples();
    for a in &vals {
        for b in &vals {
            for c in &vals {
                if a.cmp(b) == Ordering::Less && b.cmp(c) == Ordering::Less {
                    assert_eq!(a.cmp(c), Ordering::Less);
                }
            }
        }
    }
}

#[test]
fn integer_payload_orders_numerically() {
    let a = SupportedTerm::Integer(-5);
    let b = SupportedTerm::Integer(3);
    assert_eq!(a.cmp(&b), Ordering::Less);
    assert_eq!(b.cmp(&a), Ordering::Greater);
    assert_eq!(a.cmp(&SupportedTerm::Integer(-5)), Ordering::Equal);
}

#[test]
fn atom_payload_orders_lexicographically() {
    let a = SupportedTerm::Atom(String::from("abc"));
    let b = SupportedTerm::Atom(String::from("abd"));
    let prefix = SupportedTerm::Atom(String::from("ab"));
    assert_eq!(a.cmp(&b), Ordering::Less);
    assert_eq!(prefix.cmp(&a), Ordering::Less);
    assert_eq!(a.cmp(&a.deep_clone()), Ordering::Equal);
}

#[test]
fn tuple_compares_length_before_elements() {
    let short = SupportedTerm::Tuple(vec![SupportedTerm::Integer(9)]);
    let long = SupportedTerm::Tuple(vec![
        SupportedTerm::Integer(1),
        SupportedTerm::Integer(1),
    ]);
    // shorter tuple first, even though its element is larger
    assert_eq!(short.cmp(&long), Ordering::Less);

    let a = SupportedTerm::Tuple(vec![SupportedTerm::Integer(1), SupportedTerm::Integer(2)]);
    let b = SupportedTerm::Tuple(vec![SupportedTerm::Integer(1), SupportedTerm::Integer(3)]);
    assert_eq!(a.cmp(&b), Ordering::Less);
}

#[test]
fn list_compares_elements_before_length() {
    let a = SupportedTerm::List(vec![SupportedTerm::Integer(2)]);
    let b = SupportedTerm::List(vec![
        SupportedTerm::Integer(1),
        SupportedTerm::Integer(9),
    ]);
    // first element decides, despite `a` being shorter
    assert_eq!(a.cmp(&b), Ordering::Greater);

    let prefix = SupportedTerm::List(vec![SupportedTerm::Integer(1)]);
    assert_eq!(prefix.cmp(&b), Ordering::Less);
}

#[test]
fn equality_is_variant_and_payload_equality() {
    let a = SupportedTerm::Tuple(vec![
        SupportedTerm::Integer(1),
        SupportedTerm::Atom(String::from("x")),
    ]);
    let b = SupportedTerm::Tuple(vec![
        SupportedTerm::Integer(1),
        SupportedTerm::Atom(String::from("x")),
    ]);
    let c = SupportedTerm::List(vec![
        SupportedTerm::Integer(1),
        SupportedTerm::Atom(String::from("x")),
    ]);
    assert_eq!(a, b);
    assert!(a != c);
    assert_eq!(a.cmp(&b), Ordering::Equal);
    assert!(SupportedTerm::Integer(1) != SupportedTerm::Bitstring(String::from("1")));
}

#[test]
fn partial_cmp_agrees_with_cmp() {
    let a = SupportedTerm::Integer(1);
    let b = SupportedTerm::Atom(String::from("a"));
    assert_eq!(a.partial_cmp(&b), Some(a.cmp(&b)));
    assert!(a < b);
}
