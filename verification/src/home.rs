//! The state of the home screen: the timestamp keys of the posts that came
//! in, newest first, and the page of the feed that is shown.

use crate::bytes::{
    be_bytes, lemma_lex_asymmetric, lemma_lex_total, lemma_lex_transitive, lex_lt, precedes,
    timestamp_key,
};
use vstd::prelude::*;
use vstd::seq_lib::to_multiset_insert;

verus! {

/// The number of posts on a page of the feed.
pub const FEED_LIMIT: usize = 40;

#[derive(Debug, Clone, Default)]
pub struct HomeState {
    loaded: bool,
    feed_ids: Vec<Vec<u8>>,
    page: usize,
}

pub struct HomeStateView {
    pub loaded: bool,
    pub feed_ids: Seq<Seq<u8>>,
    pub page: nat,
}

/// No key of the list comes before a later one: the newest is first.
pub open spec fn descends(keys: Seq<Seq<u8>>) -> bool {
    forall|i: int, j: int| 0 <= i < j < keys.len() ==> !lex_lt(#[trigger] keys[i], #[trigger] keys[j])
}

/// The page after a scroll: one back near the top unless it is the first,
/// else one on near the bottom while posts are left behind the page.
pub open spec fn page_after_scroll(page: nat, posts: nat, near_top: bool, near_bottom: bool) -> nat {
    if near_top && page > 0 {
        (page - 1) as nat
    } else if near_bottom && page * FEED_LIMIT < posts {
        page + 1
    } else {
        page
    }
}

impl View for HomeState {
    type V = HomeStateView;

    closed spec fn view(&self) -> HomeStateView {
        HomeStateView {
            loaded: self.loaded,
            feed_ids: self.feed_ids@.map_values(|id: Vec<u8>| id@),
            page: self.page as nat,
        }
    }
}

impl HomeState {
    /// The keys are kept newest first.
    pub open spec fn wf(&self) -> bool {
        descends(self@.feed_ids)
    }

    /// Nothing loaded, no posts, the first page.
    pub fn new() -> (state: HomeState)
        ensures
            state.wf(),
            !state@.loaded,
            state@.feed_ids == Seq::<Seq<u8>>::empty(),
            state@.page == 0,
    {
        let state = HomeState { loaded: false, feed_ids: Vec::new(), page: 0 };
        assert(state@.feed_ids =~= Seq::<Seq<u8>>::empty());
        state
    }

    /// The title of the screen.
    pub fn title(&self) -> (title: String)
        ensures
            title@ == "Nostr - Home"@,
    {
        "Nostr - Home".to_owned()
    }

    pub fn loaded(&self) -> (loaded: bool)
        ensures
            loaded == self@.loaded,
    {
        self.loaded
    }

    /// The page of the feed that is shown, counted from 0.
    pub fn page(&self) -> (page: usize)
        ensures
            page == self@.page,
    {
        self.page
    }

    /// The timestamp keys of the posts that came in, newest first.
    pub fn feed_ids(&self) -> (ids: &Vec<Vec<u8>>)
        ensures
            ids@.map_values(|id: Vec<u8>| id@) == self@.feed_ids,
    {
        &self.feed_ids
    }

    /// Marks the screen as loaded.
    pub fn load(&mut self)
        ensures
            final(self)@.loaded,
            final(self)@.feed_ids == old(self)@.feed_ids,
            final(self)@.page == old(self)@.page,
    {
        self.loaded = true;
    }

    /// Takes a scroll in: near the top the page before is shown, near the
    /// bottom the next one, while there is one.
    pub fn scrolled(&mut self, near_top: bool, near_bottom: bool)
        ensures
            final(self)@.loaded,
            final(self)@.feed_ids == old(self)@.feed_ids,
            final(self)@.page == page_after_scroll(
                old(self)@.page,
                old(self)@.feed_ids.len(),
                near_top,
                near_bottom,
            ),
    {
        self.loaded = true;
        let posts = self.feed_ids.len();
        if near_top && self.page > 0 {
            self.page -= 1;
        } else if near_bottom && posts > 0 && self.page <= (posts - 1) / FEED_LIMIT {
            self.page += 1;
        }
    }

    /// Takes a post in: its timestamp key gets its place in the list, ahead
    /// of the keys of older posts.
    pub fn push_textnote(&mut self, created_at: u64)
        requires
            old(self).wf(),
        ensures
            final(self).wf(),
            final(self)@.loaded,
            final(self)@.page == old(self)@.page,
            final(self)@.feed_ids.to_multiset() == old(self)@.feed_ids.to_multiset().insert(
                be_bytes(created_at),
            ),
    {
        self.loaded = true;
        let key = timestamp_key(created_at);
        let ghost before = self@.feed_ids;
        let mut at: usize = 0;
        while at < self.feed_ids.len() && precedes(key.as_slice(), self.feed_ids[at].as_slice())
            invariant
                at <= self.feed_ids@.len(),
                self.feed_ids@ == old(self).feed_ids@,
                self.page == old(self).page,
                self.loaded,
                before == self@.feed_ids,
                forall|i: int| 0 <= i < at ==> lex_lt(key@, #[trigger] before[i]),
            decreases self.feed_ids@.len() - at,
        {
            assert(before[at as int] == self.feed_ids@[at as int]@);
            at += 1;
        }
        proof {
            if at < before.len() {
                assert(before[at as int] == self.feed_ids@[at as int]@);
            }
        }
        self.feed_ids.insert(at, key);
        proof {
            let after = self@.feed_ids;
            let k = be_bytes(created_at);
            assert(after =~= before.insert(at as int, k));
            to_multiset_insert(before, at as int, k);
            assert forall|i: int, j: int| 0 <= i < j < after.len() implies !lex_lt(
                #[trigger] after[i],
                #[trigger] after[j],
            ) by {
                if j == at {
                    assert(after[i] == before[i]);
                    lemma_lex_asymmetric(k, before[i]);
                } else if i == at {
                    assert(after[j] == before[j - 1]);
                    assert(!lex_lt(k, before[at as int]));
                    if lex_lt(k, after[j]) {
                        if j - 1 > at {
                            lemma_lex_total(k, before[at as int]);
                            if k != before[at as int] {
                                lemma_lex_transitive(before[at as int], k, after[j]);
                            }
                        }
                    }
                } else {
                    let i0 = if i < at { i } else { i - 1 };
                    let j0 = if j < at { j } else { j - 1 };
                    assert(after[i] == before[i0] && after[j] == before[j0]);
                }
            }
        }
    }
}

} // verus!
