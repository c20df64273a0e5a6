use reaction_toplist::config::{emoji_as_string, same_emoji, Emoji};
use reaction_toplist::content::{find_content, resolve_step, Resolution, MAX_FORWARD_DEPTH};
use reaction_toplist::post::{
    approximate_score, count_distinct_users, is_same_emoji, kind_in, match_category, reaction_score, strip_reactions,
    ForwardRef, Post, Reaction,
};

fn glyph(s: &str) -> Emoji {
    Emoji::Unicode { string: s.to_string() }
}

fn post(id: u64, body: &str, attachments: &[&str], forward: Option<ForwardRef>) -> Post {
    Post {
        id,
        channel_id: 7,
        guild_id: None,
        timestamp_millis: 0,
        author_id: 1,
        author_name: "someone".to_string(),
        reactions: vec![],
        attachments: attachments.iter().map(|s| s.to_string()).collect(),
        body: body.to_string(),
        forward,
    }
}

#[test]
fn content_is_body_then_one_url_per_line() {
    let p = post(1, "look", &["https://a/1.png", "https://a/2.png"], None);
    assert_eq!(find_content(&p).as_deref(), Some("look\nhttps://a/1.png\nhttps://a/2.png"));
}

#[test]
fn content_without_body_starts_with_the_first_url() {
    let p = post(1, "", &["https://a/1.png"], None);
    assert_eq!(find_content(&p).as_deref(), Some("https://a/1.png"));
}

#[test]
fn empty_post_has_no_content() {
    let p = post(1, "", &[], None);
    assert_eq!(find_content(&p), None);
}

#[test]
fn post_without_forward_resolves_to_its_own_content() {
    let chain = vec![post(1, "hi", &[], None)];
    assert!(matches!(resolve_step(&chain), Resolution::Content(Some(s)) if s == "hi"));
}

#[test]
fn forward_asks_for_the_referenced_post() {
    let f = ForwardRef { channel_id: 3, post_id: 9 };
    let mut chain = vec![post(1, "", &[], Some(f))];
    assert!(matches!(resolve_step(&chain), Resolution::Fetch(r) if r == f));
    chain.push(post(9, "forwarded text", &["u"], None));
    assert!(matches!(resolve_step(&chain), Resolution::Content(Some(s)) if s == "forwarded text\nu"));
}

#[test]
fn cyclic_forwards_have_no_content() {
    let chain = vec![
        post(1, "", &[], Some(ForwardRef { channel_id: 3, post_id: 2 })),
        post(2, "", &[], Some(ForwardRef { channel_id: 3, post_id: 1 })),
    ];
    assert!(matches!(resolve_step(&chain), Resolution::Content(None)));
    let own = vec![post(4, "x", &[], Some(ForwardRef { channel_id: 3, post_id: 4 }))];
    assert!(matches!(resolve_step(&own), Resolution::Content(None)));
}

#[test]
fn forward_chains_are_cut_at_the_depth_limit() {
    let chain: Vec<Post> = (0..MAX_FORWARD_DEPTH as u64)
        .map(|i| post(i, "", &[], Some(ForwardRef { channel_id: 3, post_id: i + 100 })))
        .collect();
    assert!(matches!(resolve_step(&chain), Resolution::Content(None)));
    let shorter: Vec<Post> = (0..MAX_FORWARD_DEPTH as u64 - 1)
        .map(|i| post(i, "", &[], Some(ForwardRef { channel_id: 3, post_id: i + 100 })))
        .collect();
    assert!(matches!(resolve_step(&shorter), Resolution::Fetch(_)));
}

#[test]
fn distinct_users_are_counted_once_without_the_acting_identity() {
    let lists = vec![vec![1, 2, 3], vec![2, 3, 4], vec![4, 5]];
    assert_eq!(count_distinct_users(&lists, 3), 4);
    assert_eq!(count_distinct_users(&lists, 9), 5);
    assert_eq!(count_distinct_users(&vec![], 9), 0);
}

#[test]
fn reaction_score_discounts_own_reaction() {
    assert_eq!(reaction_score(&Reaction { kind: glyph("a"), count: 3, me: true }), 2);
    assert_eq!(reaction_score(&Reaction { kind: glyph("a"), count: 3, me: false }), 3);
    assert_eq!(reaction_score(&Reaction { kind: glyph("a"), count: 0, me: true }), 0);
}

#[test]
fn category_takes_the_first_tally_of_its_kind() {
    let mut p = post(1, "", &[], None);
    p.reactions = vec![
        Reaction { kind: glyph("b"), count: 9, me: false },
        Reaction { kind: glyph("a"), count: 4, me: true },
        Reaction { kind: glyph("a"), count: 7, me: false },
    ];
    assert_eq!(match_category(&p, &glyph("a")), Some(3));
    assert_eq!(match_category(&p, &glyph("c")), None);
    assert!(is_same_emoji(&p.reactions[0], &glyph("b")));
    assert!(!is_same_emoji(&p.reactions[0], &Emoji::Custom { name: "b".to_string(), id: 1 }));
}

#[test]
fn cheap_score_saturates() {
    let rs = vec![
        Reaction { kind: glyph("a"), count: u64::MAX, me: false },
        Reaction { kind: glyph("b"), count: 5, me: false },
    ];
    assert_eq!(approximate_score(&rs, &vec![]), u64::MAX);
    assert_eq!(approximate_score(&rs, &vec![glyph("a")]), 5);
    assert_eq!(strip_reactions(&rs, &vec![glyph("b")]).len(), 1);
}

#[test]
fn cheap_score_bounds_exact_score_on_consistent_fixtures() {
    // Each kind's list holds no more users than its tally, and holds the
    // acting identity (42) where the tally says it reacted.
    let fixtures: Vec<(Vec<Reaction>, Vec<Vec<u64>>)> = vec![
        (
            vec![
                Reaction { kind: glyph("a"), count: 3, me: true },
                Reaction { kind: glyph("b"), count: 2, me: false },
            ],
            vec![vec![42, 1, 2], vec![1, 2]],
        ),
        (
            vec![
                Reaction { kind: glyph("a"), count: 2, me: false },
                Reaction { kind: glyph("b"), count: 2, me: false },
                Reaction { kind: glyph("c"), count: 1, me: true },
            ],
            vec![vec![5, 6], vec![7, 8], vec![42]],
        ),
    ];
    for (rs, lists) in fixtures {
        let approx = approximate_score(&rs, &vec![]);
        let exact = count_distinct_users(&lists, 42);
        assert!(exact <= approx, "{exact} > {approx}");
    }
}

#[test]
fn kinds_compare_by_id_or_by_text() {
    let a = Emoji::Custom { name: "cat".to_string(), id: 5 };
    let b = Emoji::Custom { name: "dog".to_string(), id: 5 };
    assert!(same_emoji(&a, &b));
    assert!(!same_emoji(&a, &glyph("cat")));
    assert!(same_emoji(&glyph("x"), &glyph("x")));
    assert_eq!(emoji_as_string(&a), "cat");
    assert_eq!(emoji_as_string(&glyph("⭐")), "⭐");
    assert!(kind_in(&vec![glyph("x"), b.clone()], &a));
    assert!(!kind_in(&vec![glyph("x")], &a));
}
