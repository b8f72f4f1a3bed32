use kyuko_bot::config::{
    default_user_agent, find_tweet, fresh_only, remove_withdrawn, Follow, FollowError,
    FollowOutcome, MessageMethod, UserInfo,
};
use kyuko_bot::dates::Date;
use kyuko_bot::{Kyuko, Periods};

fn kyuko(title: &str, lecturer: &str) -> Kyuko {
    Kyuko {
        kind: "休講".to_string(),
        date: Date::from_ymd(2016, 12, 19),
        periods: Periods::from_vec(vec![1]),
        title: title.to_string(),
        lecturer: lecturer.to_string(),
        remarks: None,
    }
}

#[test]
fn follow_and_clear() {
    let tweeted = vec![("url".to_string(), vec![(77u64, kyuko("解析学I", "山田"))])];
    let mut user = UserInfo { following: Vec::new(), next_id: 0 };

    let target = Follow::Pattern { title: "解析".to_string(), lecturer: None };
    let (id, outcome) = user.follow(target, MessageMethod::Dm, &tweeted).unwrap();
    assert_eq!(id, 0);
    assert!(matches!(outcome, FollowOutcome::Pattern { .. }));

    // the same target by the same method is refused
    let again = Follow::Pattern { title: "解析".to_string(), lecturer: None };
    match user.follow(again, MessageMethod::Dm, &tweeted) {
        Err(FollowError::AlreadyFollowing(existing)) => assert_eq!(existing, 0),
        _ => panic!("duplicate subscription accepted"),
    }

    // the other method replaces the subscription
    let other_method = Follow::Pattern { title: "解析".to_string(), lecturer: None };
    let (id2, _) = user.follow(other_method, MessageMethod::Reply, &tweeted).unwrap();
    assert_eq!(id2, 1);
    assert_eq!(user.following.len(), 1);

    user.clear();
    assert_eq!(user.following.len(), 0);
    assert_eq!(user.next_id, 0);
}

#[test]
fn unfollow_removes_by_id() {
    let tweeted: Vec<(String, Vec<(u64, Kyuko)>)> = Vec::new();
    let mut user = UserInfo { following: Vec::new(), next_id: 0 };
    let t1 = Follow::Pattern { title: "解析".to_string(), lecturer: None };
    let t2 = Follow::Pattern { title: "代数".to_string(), lecturer: None };
    let (id1, _) = user.follow(t1, MessageMethod::Dm, &tweeted).unwrap();
    let (id2, _) = user.follow(t2, MessageMethod::Dm, &tweeted).unwrap();

    assert!(user.unfollow(id1).is_some());
    assert_eq!(user.following.len(), 1);
    assert_eq!(user.following[0].0, id2);
    assert!(user.unfollow(id1).is_none());
}

#[test]
fn follow_tweet_must_exist() {
    let tweeted = vec![("url".to_string(), vec![(77u64, kyuko("解析学I", "山田"))])];
    let mut user = UserInfo { following: Vec::new(), next_id: 0 };

    match user.follow(Follow::TweetId(123), MessageMethod::Dm, &tweeted) {
        Err(FollowError::TweetDoesNotExist(id)) => assert_eq!(id, 123),
        _ => panic!("missing status accepted"),
    }
    match user.follow(Follow::TweetId(77), MessageMethod::Dm, &tweeted) {
        Ok((_, FollowOutcome::Tweet { status_id, dept, item })) => {
            assert_eq!(status_id, 77);
            assert_eq!((dept, item), (0, 0));
        },
        _ => panic!("existing status refused"),
    }
    assert_eq!(find_tweet(&tweeted, 77), Some((0, 0)));
    assert_eq!(find_tweet(&tweeted, 123), None);
}

#[test]
fn pattern_matching() {
    let k = kyuko("解析学I", "山田");
    let by_title = Follow::Pattern { title: "解析".to_string(), lecturer: None };
    assert!(by_title.matches(&k));
    let by_both = Follow::Pattern { title: "解析".to_string(), lecturer: Some("山".to_string()) };
    assert!(by_both.matches(&k));
    let wrong = Follow::Pattern { title: "代数".to_string(), lecturer: None };
    assert!(!wrong.matches(&k));
    assert!(!Follow::TweetId(1).matches(&k));
}

#[test]
fn withdrawn_and_fresh_notices() {
    let posted = vec![(1u64, kyuko("解析学I", "山田")), (2u64, kyuko("代数学", "佐藤"))];
    let on_bulletin = vec![kyuko("解析学I", "山田"), kyuko("幾何学", "鈴木")];

    let (kept, withdrawn) = remove_withdrawn(posted, &on_bulletin);
    assert_eq!(kept.len(), 1);
    assert_eq!(kept[0].0, 1);
    assert_eq!(withdrawn.len(), 1);
    assert_eq!(withdrawn[0].0, 2);

    let fresh = fresh_only(on_bulletin, &kept);
    assert_eq!(fresh.len(), 1);
    assert_eq!(&fresh[0].title, "幾何学");
}

#[test]
fn user_agent_default() {
    assert_eq!(&default_user_agent(), "kyuko-bot/0.1.0");
}

#[test]
fn method_display() {
    assert_eq!(&MessageMethod::Dm.display_string(), "DM");
    assert_eq!(&MessageMethod::Reply.display_string(), "@");
}
