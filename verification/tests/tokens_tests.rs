use quic_cm::tokens::TokenManager;

#[test]
fn fresh_tokens_count_up() {
    let mut tm = TokenManager::new();
    assert_eq!(tm.allocate_token(), 0);
    assert_eq!(tm.allocate_token(), 1);
    assert_eq!(tm.allocate_token(), 2);
}

#[test]
fn freed_token_is_reused() {
    let mut tm = TokenManager::new();
    let a = tm.allocate_token();
    let b = tm.allocate_token();
    tm.free_token(a);
    let c = tm.allocate_token();
    assert_eq!(c, a);
    assert_ne!(c, b);
}

#[test]
fn freeing_unknown_token_changes_nothing() {
    let mut tm = TokenManager::new();
    let a = tm.allocate_token();
    tm.free_token(77);
    assert!(tm.used_tokens.contains(&a));
    assert!(tm.free_tokens.is_empty());
}

#[test]
fn live_tokens_are_distinct() {
    let mut tm = TokenManager::new();
    let mut seen = Vec::new();
    for _ in 0..10 {
        let t = tm.allocate_token();
        assert!(!seen.contains(&t));
        seen.push(t);
    }
    tm.free_token(seen[3]);
    tm.free_token(seen[7]);
    let x = tm.allocate_token();
    let y = tm.allocate_token();
    assert_ne!(x, y);
    assert!(x == seen[3] || x == seen[7]);
    assert!(y == seen[3] || y == seen[7]);
}

#[test]
fn reuse_takes_the_most_recently_freed() {
    let mut tm = TokenManager::new();
    let a = tm.allocate_token();
    let b = tm.allocate_token();
    let c = tm.allocate_token();
    tm.free_token(a);
    tm.free_token(c);
    assert_eq!(tm.allocate_token(), c);
    assert_eq!(tm.allocate_token(), a);
    let fresh = tm.allocate_token();
    assert_eq!(fresh, 3);
    assert_ne!(fresh, b);
}
