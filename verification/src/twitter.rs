//! A small social-feed state machine: users follow one another and post
//! tweets, and a user's news feed is the most recent tweets of the users
//! they follow, newest first.
//!
//! Timestamps come from one global counter, so every tweet's timestamp is
//! unique; the feed is therefore fully determined.  Each user's tweet list
//! is kept newest first.

use vstd::prelude::*;
use vstd::seq_lib::group_to_multiset_ensures;
use std::collections::HashMap;

verus! {

broadcast use
    group_to_multiset_ensures,
    vstd::multiset::group_multiset_axioms,
    vstd::multiset::group_multiset_properties,
    vstd::std_specs::hash::group_hash_axioms,
    vstd::map::group_map_axioms,
    vstd::set::group_set_axioms,
;

/// How many tweets a news feed holds at most.
pub const FEED_LENGTH: usize = 10;

/// How many users exist from the start, each following themselves.
pub const INITIAL_USERS: i32 = 500;

/// The feed service: who follows whom, who tweeted what and when.
pub struct Twitter {
    following_map: HashMap<i32, Vec<i32>>,
    tweet_map: HashMap<i32, Vec<(u64, i32)>>,
    timestamp: u64,
}

impl Twitter {
    /// The users a user follows, in the order the follow relations were
    /// created (each at most once).
    pub closed spec fn followees(self, u: i32) -> Seq<i32> {
        if self.following_map@.contains_key(u) {
            self.following_map@[u]@
        } else {
            Seq::empty()
        }
    }

    /// Whether the user is known to the follow graph.
    pub closed spec fn has_user(self, u: i32) -> bool {
        self.following_map@.contains_key(u)
    }

    /// A user's tweets as `(timestamp, id)` pairs, newest first.
    pub closed spec fn tweets_of(self, u: i32) -> Seq<(u64, i32)> {
        if self.tweet_map@.contains_key(u) {
            self.tweet_map@[u]@
        } else {
            Seq::empty()
        }
    }

    /// The next timestamp to be handed out.
    pub closed spec fn now(self) -> u64 {
        self.timestamp
    }

    /// The invariant: follow lists have no duplicates; every tweet is older
    /// than the clock; each user's tweets are strictly newest first; and no
    /// two distinct tweets share a timestamp.
    pub open spec fn wf(self) -> bool {
        &&& forall|u: i32| #![trigger self.followees(u)] self.followees(u).no_duplicates()
        &&& forall|u: i32, i: int|
            0 <= i < self.tweets_of(u).len() ==> (#[trigger] self.tweets_of(u)[i]).0
                < self.now()
        &&& forall|u: i32, i: int, j: int|
            #![trigger self.tweets_of(u)[i], self.tweets_of(u)[j]]
            0 <= i < j < self.tweets_of(u).len() ==> self.tweets_of(u)[i].0 > self.tweets_of(
                u,
            )[j].0
        &&& forall|u1: i32, u2: i32, i: int, j: int|
            #![trigger self.tweets_of(u1)[i], self.tweets_of(u2)[j]]
            u1 != u2 && 0 <= i < self.tweets_of(u1).len() && 0 <= j < self.tweets_of(u2).len()
                ==> self.tweets_of(u1)[i].0 != self.tweets_of(u2)[j].0
    }

    /// The tweets the users `fs[from..]` can contribute to a feed, in list
    /// order per user.
    pub open spec fn pool_from(self, fs: Seq<i32>, from: int) -> Seq<(u64, i32)>
        decreases fs.len() - from,
    {
        if from < 0 || from >= fs.len() {
            Seq::empty()
        } else {
            self.tweets_of(fs[from]) + self.pool_from(fs, from + 1)
        }
    }

    /// What a correct news feed looks like: `ids` are the identifiers of a
    /// selection `sel` from the candidate pool that holds as many tweets as
    /// available up to the feed length, ordered strictly newest first, and
    /// every candidate left out is older than everything selected.
    pub open spec fn feed_ok(pool: Seq<(u64, i32)>, sel: Seq<(u64, i32)>, ids: Seq<i32>) -> bool {
        &&& sel.to_multiset().subset_of(pool.to_multiset())
        &&& sel.len() == (if pool.len() < FEED_LENGTH as int {
            pool.len() as int
        } else {
            FEED_LENGTH as int
        })
        &&& ids.len() == sel.len()
        &&& forall|i: int| 0 <= i < sel.len() ==> ids[i] == (#[trigger] sel[i]).1
        &&& forall|i: int, j: int|
            #![trigger sel[i], sel[j]]
            0 <= i < j < sel.len() ==> sel[i].0 > sel[j].0
        &&& forall|p: (u64, i32)|
            #[trigger] pool.to_multiset().sub(sel.to_multiset()).count(p) > 0 ==> (forall|i: int|
                0 <= i < sel.len() ==> p.0 < (#[trigger] sel[i]).0)
    }

    /// A fresh service: users `1..=INITIAL_USERS` each follow themselves,
    /// nobody has tweeted, the clock is at zero.
    pub fn new() -> (t: Twitter)
        ensures
            t.wf(),
            t.now() == 0,
            forall|u: i32| 1 <= u <= INITIAL_USERS ==> t.has_user(u) && t.followees(u) =~= seq![u],
            forall|u: i32| !(1 <= u <= INITIAL_USERS) ==> !t.has_user(u),
            forall|u: i32| t.tweets_of(u) =~= Seq::<(u64, i32)>::empty(),
    {
        let mut following_map: HashMap<i32, Vec<i32>> = HashMap::with_capacity(500);
        let mut user: i32 = 1;
        while user <= INITIAL_USERS
            invariant
                1 <= user <= INITIAL_USERS + 1,
                forall|u: i32| 1 <= u < user ==> #[trigger] following_map@.dom().contains(u),
                forall|u: i32| 1 <= u < user ==> (#[trigger] following_map@[u])@ == seq![u],
                forall|u: i32| !(1 <= u < user) ==> !(#[trigger] following_map@.dom().contains(u)),
            decreases INITIAL_USERS + 1 - user,
        {
            let mut own: Vec<i32> = Vec::new();
            own.push(user);
            proof {
                assert(own@ =~= seq![user]);
            }
            following_map.insert(user, own);
            user = user + 1;
        }
        let t = Twitter { following_map, tweet_map: HashMap::new(), timestamp: 0 };
        proof {
            assert forall|u: i32| 1 <= u <= INITIAL_USERS implies t.has_user(u) && t.followees(u)
                =~= seq![u] by {
                assert(t.following_map@.contains_key(u));
            }
            assert forall|u: i32| t.tweets_of(u) =~= Seq::<(u64, i32)>::empty() by {
                assert(!t.tweet_map@.contains_key(u));
            }
            assert forall|u: i32| #![trigger t.followees(u)] t.followees(u).no_duplicates() by {
                if t.following_map@.contains_key(u) {
                    assert(t.followees(u) == seq![u]);
                }
            }
        }
        t
    }

    /// Posts a tweet: it is prepended to the user's list, stamped with the
    /// current clock, and the clock advances.  Nobody else's tweets and no
    /// follow relation changes.
    pub fn post_tweet(&mut self, user_id: i32, tweet_id: i32)
        requires
            old(self).wf(),
            old(self).now() < u64::MAX,
        ensures
            final(self).wf(),
            final(self).now() == old(self).now() + 1,
            final(self).tweets_of(user_id) == seq![(old(self).now(), tweet_id)] + old(
                self,
            ).tweets_of(user_id),
            forall|u: i32|
                u != user_id ==> #[trigger] final(self).tweets_of(u) == old(self).tweets_of(u),
            forall|u: i32| #[trigger] final(self).followees(u) == old(self).followees(u),
            forall|u: i32| final(self).has_user(u) == old(self).has_user(u),
    {
        let taken = self.tweet_map.remove(&user_id);
        let mut tweets: Vec<(u64, i32)> = match taken {
            Some(t) => t,
            None => Vec::new(),
        };
        tweets.insert(0, (self.timestamp, tweet_id));
        self.tweet_map.insert(user_id, tweets);
        self.timestamp = self.timestamp + 1;
        proof {
            assert(self.tweets_of(user_id) =~= seq![(old(self).now(), tweet_id)] + old(
                self,
            ).tweets_of(user_id));
            assert forall|u: i32|
                u != user_id implies #[trigger] self.tweets_of(u) == old(self).tweets_of(u) by {
                assert(self.tweet_map@.contains_key(u) == old(self).tweet_map@.contains_key(u));
                if self.tweet_map@.contains_key(u) {
                    assert(self.tweet_map@[u] == old(self).tweet_map@[u]);
                }
            }
            let head = (old(self).now(), tweet_id);
            let pre_list = old(self).tweets_of(user_id);
            assert(self.tweets_of(user_id) == seq![head] + pre_list);
            assert forall|u: i32| #![trigger self.followees(u)] self.followees(u).no_duplicates()
                by {
                assert(self.followees(u) == old(self).followees(u));
            }
            assert forall|u: i32, i: int|
                0 <= i < self.tweets_of(u).len() implies (#[trigger] self.tweets_of(u)[i]).0
                < self.now() by {
                if u == user_id {
                    if i > 0 {
                        assert(self.tweets_of(u)[i] == pre_list[i - 1]);
                        assert(pre_list[i - 1].0 < old(self).now());
                    }
                } else {
                    assert((old(self).tweets_of(u)[i]).0 < old(self).now());
                }
            }
            assert forall|u: i32, i: int, j: int|
                0 <= i < j < self.tweets_of(u).len() implies (#[trigger] self.tweets_of(u)[i]).0
                > (#[trigger] self.tweets_of(u)[j]).0 by {
                if u == user_id {
                    assert(self.tweets_of(u)[j] == pre_list[j - 1]);
                    if i == 0 {
                        assert(pre_list[j - 1].0 < old(self).now());
                    } else {
                        assert(self.tweets_of(u)[i] == pre_list[i - 1]);
                        assert(pre_list[i - 1].0 > pre_list[j - 1].0);
                    }
                } else {
                    assert((old(self).tweets_of(u)[i]).0 > (old(self).tweets_of(u)[j]).0);
                }
            }
            assert forall|u1: i32, u2: i32, i: int, j: int|
                u1 != u2 && 0 <= i < self.tweets_of(u1).len() && 0 <= j < self.tweets_of(
                    u2,
                ).len() implies (#[trigger] self.tweets_of(u1)[i]).0 != (#[trigger] self.tweets_of(
                u2,
            )[j]).0 by {
                if u1 == user_id && i == 0 {
                    assert((old(self).tweets_of(u2)[j]).0 < old(self).now());
                } else if u2 == user_id && j == 0 {
                    assert((old(self).tweets_of(u1)[i]).0 < old(self).now());
                } else {
                    let oi: int = if u1 == user_id {
                        i - 1
                    } else {
                        i
                    };
                    let oj: int = if u2 == user_id {
                        j - 1
                    } else {
                        j
                    };
                    assert(self.tweets_of(u1)[i] == old(self).tweets_of(u1)[oi]);
                    assert(self.tweets_of(u2)[j] == old(self).tweets_of(u2)[oj]);
                    assert((old(self).tweets_of(u1)[oi]).0 != (old(self).tweets_of(u2)[oj]).0);
                }
            }
        }
    }

    /// Adds `followee` to `follower`'s follow list, creating the list if
    /// the follower is new; following someone already followed changes
    /// nothing.  Tweets and everyone else's follow lists stay as they are.
    pub fn follow(&mut self, follower_id: i32, followee_id: i32)
        requires
            old(self).wf(),
        ensures
            final(self).wf(),
            final(self).now() == old(self).now(),
            final(self).has_user(follower_id),
            old(self).followees(follower_id).contains(followee_id) ==> final(self).followees(
                follower_id,
            ) == old(self).followees(follower_id),
            !old(self).followees(follower_id).contains(followee_id) ==> final(self).followees(
                follower_id,
            ) == old(self).followees(follower_id).push(followee_id),
            forall|u: i32|
                u != follower_id ==> #[trigger] final(self).followees(u) == old(self).followees(u)
                    && final(self).has_user(u) == old(self).has_user(u),
            forall|u: i32| #[trigger] final(self).tweets_of(u) == old(self).tweets_of(u),
    {
        let taken = self.following_map.remove(&follower_id);
        let mut list: Vec<i32> = match taken {
            Some(l) => l,
            None => Vec::new(),
        };
        if !contains_elem(&list, followee_id) {
            list.push(followee_id);
        }
        self.following_map.insert(follower_id, list);
        proof {
            if old(self).followees(follower_id).contains(followee_id) {
                assert(self.followees(follower_id) =~= old(self).followees(follower_id));
            } else {
                assert(self.followees(follower_id) =~= old(self).followees(follower_id).push(
                    followee_id,
                ));
            }
            assert forall|u: i32| #[trigger] self.tweets_of(u) == old(self).tweets_of(u) by {}
            assert forall|u: i32| #![trigger self.followees(u)] self.followees(u).no_duplicates()
                by {
                if u != follower_id {
                    assert(self.followees(u) == old(self).followees(u));
                } else {
                    let pre_list = old(self).followees(follower_id);
                    assert(pre_list.no_duplicates());
                    if !pre_list.contains(followee_id) {
                        assert forall|i: int, j: int|
                            0 <= i < j < self.followees(u).len() implies self.followees(u)[i]
                            != self.followees(u)[j] by {
                            if j < pre_list.len() {
                                assert(pre_list[i] != pre_list[j]);
                            } else {
                                assert(pre_list.contains(pre_list[i]));
                            }
                        }
                    }
                }
            }
            lemma_wf_from_frame(*old(self), *self);
        }
    }

    /// Removes `followee` from `follower`'s follow list — which must exist;
    /// unfollowing someone not followed changes nothing.  Order among the
    /// remaining followees is kept.
    pub fn unfollow(&mut self, follower_id: i32, followee_id: i32)
        requires
            old(self).wf(),
            old(self).has_user(follower_id),
        ensures
            final(self).wf(),
            final(self).now() == old(self).now(),
            final(self).has_user(follower_id),
            !old(self).followees(follower_id).contains(followee_id) ==> final(self).followees(
                follower_id,
            ) == old(self).followees(follower_id),
            old(self).followees(follower_id).contains(followee_id) ==> (exists|i: int|
                0 <= i < old(self).followees(follower_id).len() && old(self).followees(
                    follower_id,
                )[i] == followee_id && final(self).followees(follower_id) == old(self).followees(
                    follower_id,
                ).remove(i)),
            forall|u: i32|
                u != follower_id ==> #[trigger] final(self).followees(u) == old(self).followees(u)
                    && final(self).has_user(u) == old(self).has_user(u),
            forall|u: i32| #[trigger] final(self).tweets_of(u) == old(self).tweets_of(u),
    {
        let taken = self.following_map.remove(&follower_id);
        let mut list: Vec<i32> = match taken {
            Some(l) => l,
            None => Vec::new(),
        };
        let found = index_of(&list, followee_id);
        match found {
            Some(i) => {
                list.remove(i);
                proof {
                    assert(old(self).followees(follower_id).remove(i as int) =~= list@);
                }
            },
            None => {
            },
        }
        self.following_map.insert(follower_id, list);
        proof {
            if !old(self).followees(follower_id).contains(followee_id) {
                assert(self.followees(follower_id) =~= old(self).followees(follower_id));
            }
            assert forall|u: i32| #[trigger] self.tweets_of(u) == old(self).tweets_of(u) by {}
            assert forall|u: i32| #![trigger self.followees(u)] self.followees(u).no_duplicates()
                by {
                if u != follower_id {
                    assert(self.followees(u) == old(self).followees(u));
                } else {
                    let pre_list = old(self).followees(follower_id);
                    assert(pre_list.no_duplicates());
                    assert forall|i: int, j: int|
                        0 <= i < j < self.followees(u).len() implies self.followees(u)[i]
                        != self.followees(u)[j] by {
                    }
                }
            }
            lemma_wf_from_frame(*old(self), *self);
        }
    }

    /// The news feed of a user (who must be known to the follow graph): the
    /// identifiers of the most recent tweets, newest first and at most
    /// [`FEED_LENGTH`] of them, among all tweets of the users they follow.
    pub fn get_news_feed(&self, user_id: i32) -> (r: Vec<i32>)
        requires
            self.wf(),
            self.has_user(user_id),
        ensures
            exists|sel: Seq<(u64, i32)>|
                #[trigger] Twitter::feed_ok(
                    self.pool_from(self.followees(user_id), 0),
                    sel,
                    r@,
                ),
    {
        let fs = self.following_map.get(&user_id).unwrap();
        let mut pool: Vec<(u64, i32)> = Vec::new();
        let mut idx: usize = 0;
        while idx < fs.len()
            invariant
                self.wf(),
                idx <= fs@.len(),
                fs@ == self.followees(user_id),
                pool@ + self.pool_from(fs@, idx as int) =~= self.pool_from(fs@, 0),
                forall|a: int, b: int|
                    #![trigger pool@[a], pool@[b]]
                    0 <= a < b < pool@.len() ==> pool@[a].0 != pool@[b].0,
                forall|a: int, u2: int, j: int|
                    #![trigger pool@[a], self.tweets_of(fs@[u2])[j]]
                    0 <= a < pool@.len() && idx <= u2 < fs@.len() && 0 <= j < self.tweets_of(
                        fs@[u2],
                    ).len() ==> pool@[a].0 != self.tweets_of(fs@[u2])[j].0,
            decreases fs@.len() - idx,
        {
            let followee = fs[idx];
            let looked = self.tweet_map.get(&followee);
            let ghost pool_before = pool@;
            match looked {
                Some(tweets) => {
                    let mut j: usize = 0;
                    while j < tweets.len()
                        invariant
                            j <= tweets@.len(),
                            tweets@ == self.tweets_of(fs@[idx as int]),
                            pool@ =~= pool_before + tweets@.take(j as int),
                        decreases tweets@.len() - j,
                    {
                        let tw = tweets[j];
                        pool.push(tw);
                        proof {
                            assert(pool@ =~= pool_before + tweets@.take(j + 1));
                        }
                        j = j + 1;
                    }
                    proof {
                        assert(tweets@.take(tweets@.len() as int) =~= tweets@);
                    }
                },
                None => {
                    proof {
                        assert(self.tweets_of(fs@[idx as int]) =~= Seq::<(u64, i32)>::empty());
                        assert(pool@ =~= pool_before + self.tweets_of(fs@[idx as int]));
                    }
                },
            }
            proof {
                lemma_pool_extend(*self, fs@, idx as int, pool_before, pool@, user_id);
            }
            idx = idx + 1;
        }
        proof {
            assert(self.pool_from(fs@, fs@.len() as int) =~= Seq::<(u64, i32)>::empty());
            assert(pool@ =~= self.pool_from(fs@, 0));
        }

        let ghost pool0 = pool@;
        let mut picked: Vec<(u64, i32)> = Vec::new();
        while picked.len() < FEED_LENGTH && pool.len() > 0
            invariant
                picked@.len() <= FEED_LENGTH,
                pool@.to_multiset().add(picked@.to_multiset()) =~= pool0.to_multiset(),
                forall|a: int, b: int|
                    #![trigger pool@[a], pool@[b]]
                    0 <= a < b < pool@.len() ==> pool@[a].0 != pool@[b].0,
                forall|i: int, j: int|
                    #![trigger picked@[i], picked@[j]]
                    0 <= i < j < picked@.len() ==> picked@[i].0 > picked@[j].0,
                forall|a: int, i: int|
                    0 <= a < pool@.len() && 0 <= i < picked@.len() ==> (#[trigger] pool@[a]).0 < (
                    #[trigger] picked@[i]).0,
            decreases pool@.len(),
        {
            let mut best: usize = 0;
            let mut scan: usize = 1;
            while scan < pool.len()
                invariant
                    best < scan <= pool@.len(),
                    pool@.len() > 0,
                    forall|a: int|
                        0 <= a < scan && a != best ==> (#[trigger] pool@[a]).0 < pool@[
                            best as int].0,
                    forall|a: int, b: int|
                        #![trigger pool@[a], pool@[b]]
                        0 <= a < b < pool@.len() ==> pool@[a].0 != pool@[b].0,
                decreases pool@.len() - scan,
            {
                if pool[scan].0 > pool[best].0 {
                    best = scan;
                }
                scan = scan + 1;
            }
            let chosen = pool[best];
            pool.remove(best);
            picked.push(chosen);
            proof {
                assert(picked@.drop_last() =~= picked@.subrange(0, picked@.len() - 1));
            }
        }
        proof {
            assert(picked@.len() == (if pool0.len() < FEED_LENGTH as int {
                pool0.len() as int
            } else {
                FEED_LENGTH as int
            })) by {
                assert(pool@.to_multiset().len() + picked@.to_multiset().len()
                    == pool0.to_multiset().len());
            }
        }

        let mut result: Vec<i32> = Vec::new();
        let mut t: usize = 0;
        while t < picked.len()
            invariant
                t <= picked@.len(),
                result@.len() == t,
                forall|i: int| 0 <= i < t ==> result@[i] == (#[trigger] picked@[i]).1,
            decreases picked@.len() - t,
        {
            let pair = picked[t];
            result.push(pair.1);
            t = t + 1;
        }
        proof {
            assert(Twitter::feed_ok(pool0, picked@, result@)) by {
                assert forall|p: (u64, i32)|
                    #[trigger] pool0.to_multiset().sub(picked@.to_multiset()).count(p) > 0 implies (
                forall|i: int| 0 <= i < picked@.len() ==> p.0 < (#[trigger] picked@[i]).0) by {
                    assert(pool0.to_multiset().sub(picked@.to_multiset()) =~= pool@.to_multiset());
                    assert(pool@.contains(p));
                    let a = choose|a: int| 0 <= a < pool@.len() && pool@[a] == p;
                    assert forall|i: int| 0 <= i < picked@.len() implies p.0 < (
                    #[trigger] picked@[i]).0 by {
                        assert(pool@[a].0 < picked@[i].0);
                    }
                }
                assert(picked@.to_multiset().subset_of(pool0.to_multiset()));
            }
            assert(self.pool_from(self.followees(user_id), 0) == pool0);
        }
        result
    }
}


/// Well-formedness survives any change that leaves every tweet list, the
/// clock and the duplicate-freedom of every follow list intact.
proof fn lemma_wf_from_frame(pre: Twitter, post: Twitter)
    requires
        pre.wf(),
        forall|u: i32| #[trigger] post.tweets_of(u) == pre.tweets_of(u),
        post.now() == pre.now(),
        forall|u: i32| #![trigger post.followees(u)] post.followees(u).no_duplicates(),
    ensures
        post.wf(),
{
    assert forall|u: i32, i: int|
        0 <= i < post.tweets_of(u).len() implies (#[trigger] post.tweets_of(u)[i]).0 < post.now()
        by {
        assert((pre.tweets_of(u)[i]).0 < pre.now());
    }
    assert forall|u: i32, i: int, j: int|
        0 <= i < j < post.tweets_of(u).len() implies (#[trigger] post.tweets_of(u)[i]).0 > (
    #[trigger] post.tweets_of(u)[j]).0 by {
        assert((pre.tweets_of(u)[i]).0 > (pre.tweets_of(u)[j]).0);
    }
    assert forall|u1: i32, u2: i32, i: int, j: int|
        u1 != u2 && 0 <= i < post.tweets_of(u1).len() && 0 <= j < post.tweets_of(u2).len() implies (
    #[trigger] post.tweets_of(u1)[i]).0 != (#[trigger] post.tweets_of(u2)[j]).0 by {
        assert((pre.tweets_of(u1)[i]).0 != (pre.tweets_of(u2)[j]).0);
    }
}

/// Whether the vector holds the value.
fn contains_elem(v: &Vec<i32>, x: i32) -> (r: bool)
    ensures
        r == v@.contains(x),
{
    let mut i: usize = 0;
    while i < v.len()
        invariant
            i <= v@.len(),
            forall|j: int| 0 <= j < i ==> v@[j] != x,
        decreases v@.len() - i,
    {
        if v[i] == x {
            return true;
        }
        i = i + 1;
    }
    false
}

/// The first position of the value, if any.
fn index_of(v: &Vec<i32>, x: i32) -> (r: Option<usize>)
    ensures
        match r {
            Some(i) => i < v@.len() && v@[i as int] == x,
            None => !v@.contains(x),
        },
{
    let mut i: usize = 0;
    while i < v.len()
        invariant
            i <= v@.len(),
            forall|j: int| 0 <= j < i ==> v@[j] != x,
        decreases v@.len() - i,
    {
        if v[i] == x {
            return Some(i);
        }
        i = i + 1;
    }
    None
}

/// Appending the tweets of the followee at `idx` to a pool that covered the
/// followees before `idx` keeps the pool's timestamps pairwise distinct and
/// distinct from every unprocessed followee's tweets, and covers one
/// followee more.
proof fn lemma_pool_extend(
    t: Twitter,
    fs: Seq<i32>,
    idx: int,
    pool_before: Seq<(u64, i32)>,
    pool_now: Seq<(u64, i32)>,
    user_id: i32,
)
    requires
        t.wf(),
        fs == t.followees(user_id),
        0 <= idx < fs.len(),
        pool_now =~= pool_before + t.tweets_of(fs[idx]),
        pool_before + t.pool_from(fs, idx) =~= t.pool_from(fs, 0),
        forall|a: int, b: int|
            #![trigger pool_before[a], pool_before[b]]
            0 <= a < b < pool_before.len() ==> pool_before[a].0 != pool_before[b].0,
        forall|a: int, u2: int, j: int|
            #![trigger pool_before[a], t.tweets_of(fs[u2])[j]]
            0 <= a < pool_before.len() && idx <= u2 < fs.len() && 0 <= j < t.tweets_of(
                fs[u2],
            ).len() ==> pool_before[a].0 != t.tweets_of(fs[u2])[j].0,
    ensures
        pool_now + t.pool_from(fs, idx + 1) =~= t.pool_from(fs, 0),
        forall|a: int, b: int|
            #![trigger pool_now[a], pool_now[b]]
            0 <= a < b < pool_now.len() ==> pool_now[a].0 != pool_now[b].0,
        forall|a: int, u2: int, j: int|
            #![trigger pool_now[a], t.tweets_of(fs[u2])[j]]
            0 <= a < pool_now.len() && idx + 1 <= u2 < fs.len() && 0 <= j < t.tweets_of(
                fs[u2],
            ).len() ==> pool_now[a].0 != t.tweets_of(fs[u2])[j].0,
{
    assert(t.pool_from(fs, idx) == t.tweets_of(fs[idx]) + t.pool_from(fs, idx + 1));
    assert(pool_now + t.pool_from(fs, idx + 1) =~= t.pool_from(fs, 0));
    assert(fs.no_duplicates());
    assert forall|a: int, u2: int, j: int|
        0 <= a < pool_now.len() && idx + 1 <= u2 < fs.len() && 0 <= j < t.tweets_of(
            fs[u2],
        ).len() implies (#[trigger] pool_now[a]).0 != (#[trigger] t.tweets_of(fs[u2])[j]).0 by {
        if a < pool_before.len() {
            assert(pool_now[a] == pool_before[a]);
            assert(pool_before[a].0 != t.tweets_of(fs[u2])[j].0);
        } else {
            let ja = a - pool_before.len();
            assert(pool_now[a] == t.tweets_of(fs[idx])[ja]);
            assert(fs[idx] != fs[u2]);
            assert(t.tweets_of(fs[idx])[ja].0 != t.tweets_of(fs[u2])[j].0);
        }
    }
    assert forall|a: int, b: int|
        0 <= a < b < pool_now.len() implies (#[trigger] pool_now[a]).0 != (
    #[trigger] pool_now[b]).0 by {
        if b < pool_before.len() {
            assert(pool_before[a].0 != pool_before[b].0);
        } else if a >= pool_before.len() {
            let ja = a - pool_before.len();
            let jb = b - pool_before.len();
            assert(pool_now[a] == t.tweets_of(fs[idx])[ja]);
            assert(pool_now[b] == t.tweets_of(fs[idx])[jb]);
            assert(t.tweets_of(fs[idx])[ja].0 > t.tweets_of(fs[idx])[jb].0);
        } else {
            let jb = b - pool_before.len();
            assert(pool_now[a] == pool_before[a]);
            assert(pool_now[b] == t.tweets_of(fs[idx])[jb]);
            assert(pool_before[a].0 != t.tweets_of(fs[idx])[jb].0);
        }
    }
}

} // verus!
