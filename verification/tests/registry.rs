use audio_excl::init_map;
use audio_excl::ListerError;

fn registry_of(dirs: &[(&str, &[&str])], timeout: u64) -> audio_excl::Registry {
    let dirs: Vec<(String, Vec<String>)> = dirs
        .iter()
        .map(|(name, items)| {
            (
                String::from(*name),
                items.iter().map(|s| String::from(*s)).collect(),
            )
        })
        .collect();
    init_map(dirs, timeout)
}

#[test]
fn single_clip_scenario() {
    let genre = String::from("genreA");
    let clip = String::from("clip1.wav");
    let mut reg = registry_of(&[("genreA", &["clip1.wav"])], 5);

    reg.reclaim(&genre, 0).expect("category is registered");
    let (name, token1) = reg.checkout(&genre, 0).expect("one clip is available");
    assert_eq!(name, "clip1.wav");

    assert_eq!(reg.checkout(&genre, 1), Err(ListerError::PoolExhausted));

    // the lease times out; the clip returns to the pool
    reg.reclaim(&genre, 6).expect("category is registered");
    let (name, token2) = reg.checkout(&genre, 6).expect("reclaimed clip is available");
    assert_eq!(name, "clip1.wav");
    assert_ne!(token1, token2);

    // the stale token was overwritten by the second checkout
    assert_eq!(
        reg.commit(&genre, &clip, &token1),
        Err(ListerError::TokenMismatch)
    );
    assert_eq!(reg.commit(&genre, &clip, &token2), Ok(()));
}

#[test]
fn unknown_category_is_reported() {
    let nope = String::from("nope");
    let item = String::from("x");
    let token = String::from("t");
    let mut reg = registry_of(&[("genreA", &["clip1.wav"])], 5);
    assert_eq!(reg.reclaim(&nope, 0), Err(ListerError::UnknownCategory));
    assert_eq!(reg.checkout(&nope, 0), Err(ListerError::UnknownCategory));
    assert_eq!(
        reg.check_token(&nope, &item, &token),
        Err(ListerError::UnknownCategory)
    );
    assert_eq!(
        reg.commit(&nope, &item, &token),
        Err(ListerError::UnknownCategory)
    );
}

#[test]
fn categories_lists_every_registered_name() {
    let reg = registry_of(&[("blues", &["a.wav"]), ("jazz", &["b.wav"])], 5);
    let mut names = reg.categories();
    names.sort();
    assert_eq!(names, vec!["blues", "jazz"]);
}

#[test]
fn check_token_mirrors_commit() {
    let genre = String::from("g");
    let mut reg = registry_of(&[("g", &["a.wav"])], 5);
    let (name, token) = reg.checkout(&genre, 0).expect("one clip is available");
    let bogus = String::from("bogus");
    assert_eq!(reg.check_token(&genre, &name, &token), Ok(()));
    assert_eq!(
        reg.check_token(&genre, &name, &bogus),
        Err(ListerError::TokenMismatch)
    );
    let idle = String::from("never-leased");
    assert_eq!(
        reg.check_token(&genre, &idle, &token),
        Err(ListerError::ItemNotLeased)
    );
    // validation alone changed nothing: the commit still goes through
    assert_eq!(reg.commit(&genre, &name, &token), Ok(()));
}

#[test]
fn pools_are_independent() {
    let blues = String::from("blues");
    let jazz = String::from("jazz");
    let mut reg = registry_of(&[("blues", &["a.wav"]), ("jazz", &["b.wav"])], 5);
    let (name, token) = reg.checkout(&blues, 0).expect("blues has a clip");
    assert_eq!(name, "a.wav");
    // draining blues leaves jazz untouched
    assert_eq!(reg.checkout(&blues, 0), Err(ListerError::PoolExhausted));
    let (jazz_name, _) = reg.checkout(&jazz, 0).expect("jazz has a clip");
    assert_eq!(jazz_name, "b.wav");
    assert_eq!(reg.commit(&blues, &name, &token), Ok(()));
}
