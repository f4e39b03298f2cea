use audio_excl::FileLister;
use audio_excl::ListerError;

fn pool_of(names: &[&str], timeout: u64) -> FileLister {
    let names: Vec<String> = names.iter().map(|s| String::from(*s)).collect();
    FileLister::new(names, timeout)
}

#[test]
fn test_lock_one() {
    let mut lister = pool_of(&["x"], 5);
    let (name, _) = lister.get_file(0).expect("one file should be available");
    assert_eq!(name, "x");
    assert!(lister.get_file(0).is_err(), "should not have any more files");
}

#[test]
fn test_cleanup() {
    let mut lister = pool_of(&["x"], 2);
    let (name, _) = lister.get_file(10).expect("one file should be available");
    assert_eq!(name, "x");
    lister.clean(13);
    let (name, _) = lister.get_file(13).expect("reclaimed file should be available");
    assert_eq!(name, "x");
}

#[test]
fn construction_is_permutation() {
    let mut lister = pool_of(&["a", "b", "c"], 5);
    let mut seen: Vec<String> = Vec::new();
    for _ in 0..3 {
        let (name, _) = lister.get_file(0).expect("three files should be available");
        seen.push(name);
    }
    seen.sort();
    assert_eq!(seen, vec!["a", "b", "c"]);
    assert_eq!(lister.get_file(0), Err(ListerError::PoolExhausted));
}

#[test]
fn checkouts_exhaust_pool() {
    let mut lister = pool_of(&["a", "b"], 5);
    assert!(lister.get_file(0).is_ok());
    assert!(lister.get_file(0).is_ok());
    assert_eq!(lister.get_file(0), Err(ListerError::PoolExhausted));
}

#[test]
fn reclaim_timing() {
    let mut lister = pool_of(&["x"], 10);
    let (_, _) = lister.get_file(100).expect("one file should be available");
    // at the very end of the window the lease still stands
    lister.clean(110);
    assert_eq!(lister.get_file(110), Err(ListerError::PoolExhausted));
    // one tick later the lease has expired
    lister.clean(111);
    let (name, _) = lister.get_file(111).expect("expired lease should be reclaimed");
    assert_eq!(name, "x");
}

#[test]
fn commit_succeeds_exactly_once() {
    let mut lister = pool_of(&["x"], 5);
    let (name, token) = lister.get_file(0).expect("one file should be available");
    assert_eq!(lister.move_file_and_remove(&token, &name), Ok(()));
    assert_eq!(
        lister.move_file_and_remove(&token, &name),
        Err(ListerError::ItemNotLeased)
    );
}

#[test]
fn wrong_token_changes_nothing() {
    let mut lister = pool_of(&["x"], 5);
    let (name, token) = lister.get_file(0).expect("one file should be available");
    let bogus = String::from("not-the-token");
    assert_eq!(
        lister.move_file_and_remove(&bogus, &name),
        Err(ListerError::TokenMismatch)
    );
    // the lease and token survived the failed attempt
    assert_eq!(lister.check_token(&name, &token), Ok(()));
    assert_eq!(lister.move_file_and_remove(&token, &name), Ok(()));
}

#[test]
fn two_checkouts_never_share_an_item() {
    let mut lister = pool_of(&["a", "b"], 5);
    let (first, _) = lister.get_file(0).expect("two files should be available");
    let (second, _) = lister.get_file(0).expect("one file should remain");
    assert_ne!(first, second);
}

#[test]
fn commit_of_unknown_item_not_leased() {
    let mut lister = pool_of(&["x"], 5);
    let ghostly = String::from("never-checked-out");
    let token = String::from("whatever");
    assert_eq!(
        lister.move_file_and_remove(&token, &ghostly),
        Err(ListerError::ItemNotLeased)
    );
}

#[test]
fn stale_token_survives_reclamation() {
    let mut lister = pool_of(&["x"], 1);
    let (name, token) = lister.get_file(0).expect("one file should be available");
    // the lease expires and the item returns to the pool ...
    lister.clean(10);
    // ... but the token is deliberately kept until the next checkout
    assert_eq!(lister.check_token(&name, &token), Ok(()));
    assert_eq!(lister.move_file_and_remove(&token, &name), Ok(()));
}

#[test]
fn new_checkout_overwrites_stale_token() {
    let mut lister = pool_of(&["x"], 1);
    let (name, token1) = lister.get_file(0).expect("one file should be available");
    lister.clean(10);
    let (name2, token2) = lister.get_file(10).expect("reclaimed file should be available");
    assert_eq!(name, name2);
    assert_ne!(token1, token2);
    assert_eq!(
        lister.move_file_and_remove(&token1, &name),
        Err(ListerError::TokenMismatch)
    );
    assert_eq!(lister.move_file_and_remove(&token2, &name), Ok(()));
}
