use cordial::imports::{Binding, Imports};

fn imports(list: &[(&str, Binding)]) -> Imports {
    let mut out = Imports::new();
    for (name, binding) in list {
        out.record(name, *binding);
    }
    out
}

fn pairs(imports: &Imports) -> Vec<(&str, Binding)> {
    imports.entries().iter().map(|e| (e.0.as_str(), e.1)).collect()
}

#[test]
fn names_are_kept_once_and_in_order() {
    let got = imports(&[
        ("read", Binding::Strong),
        ("Zlib", Binding::Weak),
        ("écrire", Binding::Weak),
        ("rea", Binding::Strong),
        ("read", Binding::Weak),
    ]);
    assert_eq!(
        pairs(&got),
        [
            ("Zlib", Binding::Weak),
            ("rea", Binding::Strong),
            ("read", Binding::Strong),
            ("écrire", Binding::Weak),
        ]
    );
    assert_eq!(got.len(), 4);
    assert!(!got.is_empty());
    assert_eq!(got.get("re"), None);
}

#[test]
fn a_weak_name_becomes_strong_and_stays_so() {
    let mut got = imports(&[("a", Binding::Weak)]);
    assert_eq!(got.get("a"), Some(&Binding::Weak));
    got.record("a", Binding::Strong);
    assert_eq!(got.get("a"), Some(&Binding::Strong));
    got.record("a", Binding::Weak);
    assert_eq!(got.get("a"), Some(&Binding::Strong));
}

#[test]
fn uniting_goes_either_way_round() {
    let left = [("a", Binding::Weak), ("b", Binding::Strong)];
    let right = [("b", Binding::Weak), ("a", Binding::Strong), ("c", Binding::Weak)];
    let mut one = imports(&left);
    one.absorb(&imports(&right));
    let mut other = imports(&right);
    other.absorb(&imports(&left));
    assert_eq!(pairs(&one), pairs(&other));
    assert_eq!(
        pairs(&one),
        [("a", Binding::Strong), ("b", Binding::Strong), ("c", Binding::Weak)]
    );
}

#[test]
fn uniting_groups_either_way_and_keeps_what_is_there() {
    let a = [("x", Binding::Weak)];
    let b = [("x", Binding::Strong), ("y", Binding::Weak)];
    let c = [("y", Binding::Weak), ("z", Binding::Strong)];
    let mut left = imports(&a);
    left.absorb(&imports(&b));
    left.absorb(&imports(&c));
    let mut inner = imports(&b);
    inner.absorb(&imports(&c));
    let mut right = imports(&a);
    right.absorb(&inner);
    assert_eq!(pairs(&left), pairs(&right));

    let before: Vec<(String, Binding)> =
        left.entries().iter().map(|e| (e.0.clone(), e.1)).collect();
    left.absorb(&right);
    left.absorb(&Imports::new());
    assert_eq!(left.entries(), &before);
}

#[test]
fn recording_goes_in_either_order() {
    let one = imports(&[("f", Binding::Weak), ("f", Binding::Strong), ("g", Binding::Weak)]);
    let other = imports(&[("g", Binding::Weak), ("f", Binding::Strong), ("f", Binding::Weak)]);
    assert_eq!(pairs(&one), pairs(&other));
}
