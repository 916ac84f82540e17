use threadpool::strsplit::{until_char, StrSplit};
use threadpool::token_bucket::TokenBucket;
use threadpool::twitter::Twitter;
use threadpool::voting::{VoteError, VotingService};

#[test]
fn basic_test() {
    let haystack = "a b c d e";
    let mut split = StrSplit::new(haystack, " ");
    let mut letters: Vec<&str> = Vec::new();
    while let Some(part) = split.next() {
        letters.push(part);
    }
    assert_eq!(letters, vec!["a", "b", "c", "d", "e"]);
}

#[test]
fn tail() {
    let haystack = "a b c d ";
    let mut split = StrSplit::new(haystack, " ");
    let mut letters: Vec<&str> = Vec::new();
    while let Some(part) = split.next() {
        letters.push(part);
    }
    assert_eq!(letters, vec!["a", "b", "c", "d", ""]);
}

#[test]
fn empty_haystack() {
    let haystack = "";
    if let Some(result) = StrSplit::new(haystack, " ").next() {
        assert_eq!(result, "");
    } else {
        // Not supposed to happen.
        assert!(false);
    }
}

#[test]
fn until_char_test() {
    let haystack = "Hello World!";
    assert_eq!("Hell", until_char(haystack, 'o'))
}

#[test]
fn until_char_without_occurrence() {
    assert_eq!("abc", until_char("abc", 'z'));
    assert_eq!("", until_char("", 'z'));
}

#[test]
fn multi_character_delimiter() {
    let mut split = StrSplit::new("x::y::z", "::");
    let mut parts: Vec<&str> = Vec::new();
    while let Some(part) = split.next() {
        parts.push(part);
    }
    assert_eq!(parts, vec!["x", "y", "z"]);
}

#[test]
fn feed_shows_newest_first() {
    let mut tw = Twitter::new();
    tw.post_tweet(1, 101);
    tw.post_tweet(1, 102);
    tw.post_tweet(1, 103);
    assert_eq!(tw.get_news_feed(1), vec![103, 102, 101]);
}

#[test]
fn feed_is_capped_at_ten() {
    let mut tw = Twitter::new();
    for id in 0..12 {
        tw.post_tweet(2, id);
    }
    assert_eq!(tw.get_news_feed(2), vec![11, 10, 9, 8, 7, 6, 5, 4, 3, 2]);
}

#[test]
fn feed_merges_followed_users() {
    let mut tw = Twitter::new();
    tw.post_tweet(1, 11);
    tw.post_tweet(2, 21);
    tw.post_tweet(1, 12);
    tw.post_tweet(2, 22);
    tw.follow(1, 2);
    assert_eq!(tw.get_news_feed(1), vec![22, 12, 21, 11]);
    // User 2 does not follow user 1, so sees only their own tweets.
    assert_eq!(tw.get_news_feed(2), vec![22, 21]);
}

#[test]
fn unfollow_removes_tweets_from_feed() {
    let mut tw = Twitter::new();
    tw.post_tweet(1, 11);
    tw.post_tweet(2, 21);
    tw.follow(1, 2);
    assert_eq!(tw.get_news_feed(1), vec![21, 11]);
    tw.unfollow(1, 2);
    assert_eq!(tw.get_news_feed(1), vec![11]);
}

#[test]
fn bucket_grants_until_empty() {
    let mut bucket = TokenBucket::new(2, 5, 100);
    assert_eq!(bucket.try_consume(), Some(()));
    assert_eq!(bucket.try_consume(), Some(()));
    assert_eq!(bucket.try_consume(), None);
}

#[test]
fn bucket_refills_up_to_capacity() {
    let mut bucket = TokenBucket::new(0, 2, 100);
    assert_eq!(bucket.try_consume(), None);
    assert!(bucket.refill_tick());
    assert!(bucket.refill_tick());
    assert!(!bucket.refill_tick());
    assert_eq!(bucket.try_consume(), Some(()));
    assert_eq!(bucket.try_consume(), Some(()));
    assert_eq!(bucket.try_consume(), None);
}

#[test]
fn vote_confirmations() {
    let service = VotingService::new();
    assert_eq!(
        service.vote(0, "https://example.com").unwrap(),
        "Happy to confirm that you upvoted for https://example.com"
    );
    assert_eq!(
        service.vote(1, "https://example.com").unwrap(),
        "Happy to confirm that you downvoted for https://example.com"
    );
}

#[test]
fn invalid_vote_is_out_of_range() {
    let service = VotingService::default();
    let err = service.vote(2, "https://example.com").unwrap_err();
    assert_eq!(err, VoteError::OutOfRange);
    assert_eq!(err.message(), "Invalid vote provided");
}
