use nostr_store::bytes::timestamp_key;
use nostr_store::home::{HomeState, FEED_LIMIT};

fn with_posts(n: u64) -> HomeState {
    let mut state = HomeState::new();
    for t in 1..=n {
        state.push_textnote(t);
    }
    state
}

#[test]
fn home_state_starts_on_the_first_page() {
    let state = HomeState::new();
    assert!(!state.loaded());
    assert_eq!(state.page(), 0);
    assert!(state.feed_ids().is_empty());
    assert_eq!(state.title(), "Nostr - Home");
    assert_eq!(FEED_LIMIT, 40);
}

#[test]
fn home_state_load_marks_it_loaded() {
    let mut state = HomeState::new();
    state.load();
    assert!(state.loaded());
    assert_eq!(state.page(), 0);
}

#[test]
fn pushed_posts_are_kept_newest_first() {
    let mut state = HomeState::new();
    for t in [5u64, 1, 9, 5, 300, 0, u64::MAX] {
        state.push_textnote(t);
    }
    assert!(state.loaded());
    let expected: Vec<Vec<u8>> =
        [u64::MAX, 300, 9, 5, 5, 1, 0].into_iter().map(timestamp_key).collect();
    assert_eq!(*state.feed_ids(), expected);
}

#[test]
fn scrolling_near_the_bottom_turns_the_page_while_posts_are_left() {
    let mut state = with_posts(41);
    state.scrolled(false, true);
    assert_eq!(state.page(), 1);
    state.scrolled(false, true);
    assert_eq!(state.page(), 2);
    state.scrolled(false, true);
    assert_eq!(state.page(), 2);
    let mut exact = with_posts(40);
    exact.scrolled(false, true);
    assert_eq!(exact.page(), 1);
    exact.scrolled(false, true);
    assert_eq!(exact.page(), 1);
    let mut empty = HomeState::new();
    empty.scrolled(false, true);
    assert_eq!(empty.page(), 0);
    assert!(empty.loaded());
}

#[test]
fn scrolling_near_the_top_turns_back() {
    let mut state = with_posts(100);
    state.scrolled(false, true);
    state.scrolled(false, true);
    assert_eq!(state.page(), 2);
    state.scrolled(true, false);
    assert_eq!(state.page(), 1);
    state.scrolled(true, true);
    assert_eq!(state.page(), 0);
    state.scrolled(true, false);
    assert_eq!(state.page(), 0);
    state.scrolled(true, true);
    assert_eq!(state.page(), 1);
    state.scrolled(false, false);
    assert_eq!(state.page(), 1);
}
