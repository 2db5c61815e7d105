use chat_relay::registry::Registry;

#[test]
fn new_registry_is_empty() {
    let r = Registry::new();
    assert_eq!(r.len(), 0);
    assert!(!r.contains("alice"));
}

#[test]
fn claim_of_a_free_name_is_granted() {
    let mut r = Registry::new();
    assert!(r.claim("alice"));
    assert!(r.contains("alice"));
    assert_eq!(r.len(), 1);
}

#[test]
fn claim_of_the_empty_name_is_refused() {
    let mut r = Registry::new();
    assert!(!r.claim(""));
    assert!(!r.contains(""));
    assert_eq!(r.len(), 0);
    assert!(r.claim("alice"));
    assert!(!r.claim(""));
    assert_eq!(r.len(), 1);
}

#[test]
fn claim_of_a_held_name_is_refused() {
    let mut r = Registry::new();
    assert!(r.claim("alice"));
    assert!(!r.claim("alice"));
    assert_eq!(r.len(), 1);
    assert!(r.contains("alice"));
}

#[test]
fn names_differ_by_case_and_space() {
    let mut r = Registry::new();
    assert!(r.claim("alice"));
    assert!(r.claim("Alice"));
    assert!(r.claim("alice "));
    assert!(r.claim(" "));
    assert_eq!(r.len(), 4);
}

#[test]
fn release_frees_the_name() {
    let mut r = Registry::new();
    assert!(r.claim("alice"));
    assert!(r.claim("bob"));
    r.release("alice");
    assert!(!r.contains("alice"));
    assert!(r.contains("bob"));
    assert_eq!(r.len(), 1);
    assert!(r.claim("alice"));
    assert_eq!(r.len(), 2);
}

#[test]
fn release_is_idempotent() {
    let mut r = Registry::new();
    r.release("alice");
    assert_eq!(r.len(), 0);
    assert!(r.claim("alice"));
    assert!(r.claim("bob"));
    r.release("alice");
    r.release("alice");
    r.release("");
    assert_eq!(r.len(), 1);
    assert!(r.contains("bob"));
}

#[test]
fn a_name_has_one_holder_through_any_order_of_calls() {
    let mut r = Registry::new();
    let mut holders = 0;
    for round in 0..5 {
        if r.claim("alice") {
            holders += 1;
        }
        if r.claim("alice") {
            holders += 1;
        }
        assert_eq!(holders, 1);
        if round % 2 == 0 {
            r.release("bob");
            assert_eq!(holders, 1);
        }
        r.release("alice");
        holders -= 1;
        assert!(!r.contains("alice"));
    }
}
