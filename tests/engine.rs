use reaction_toplist::config::{
    default_max, default_per_reaction_limit, Config, ConfigError, Emoji, Other, Toplist as Category,
};
use reaction_toplist::post::{Post, Reaction};
use reaction_toplist::toplist::{Phase, RefineStep, Toplist};

const ME: u64 = 42;

fn glyph(s: &str) -> Emoji {
    Emoji::Unicode { string: s.to_string() }
}

fn custom(name: &str, id: u64) -> Emoji {
    Emoji::Custom { name: name.to_string(), id }
}

fn reaction(kind: Emoji, count: u64, me: bool) -> Reaction {
    Reaction { kind, count, me }
}

fn post(id: u64, reactions: Vec<Reaction>) -> Post {
    Post {
        id,
        channel_id: 7,
        guild_id: Some(1),
        timestamp_millis: 0,
        author_id: 99,
        author_name: "someone".to_string(),
        reactions,
        attachments: vec![],
        body: format!("post {id}"),
        forward: None,
    }
}

fn category(emoji: Emoji, max: usize) -> Category {
    Category { max, emoji, min_reactions: None }
}

fn config(cats: Vec<Category>, enabled: bool, other_max: usize, ignore: Vec<Emoji>, exclusive: bool) -> Config {
    Config {
        channel_id: 100,
        target_channel_id: None,
        per_reaction_limit: default_per_reaction_limit(),
        toplist: cats,
        other: Other { enabled, max: other_max, ignore, exclusive },
    }
}

fn ingest(t: &mut Toplist, posts: Vec<Post>) {
    for p in posts {
        t.append(p, None);
    }
}

fn named_ids(t: &Toplist, i: usize) -> Vec<u64> {
    t.top(i).best_first().iter().map(|e| e.id).collect()
}

fn named_scores(t: &Toplist, i: usize) -> Vec<u64> {
    t.top(i).best_first().iter().map(|e| e.score).collect()
}

fn other_pairs(t: &Toplist) -> Vec<(u64, u64)> {
    t.other().best_first().iter().map(|e| (e.id, e.score)).collect()
}

/// Runs the refinement with `oracle` standing for the lookups; returns the
/// error of the first failed lookup.
fn refine(
    t: &mut Toplist,
    oracle: &mut dyn FnMut(&Post, &[Reaction]) -> Result<Vec<Vec<u64>>, String>,
) -> Result<(), String> {
    let mut step = t.finalize();
    loop {
        match step {
            RefineStep::Done => return Ok(()),
            RefineStep::Query { candidate } => {
                let kinds = t.stripped_reactions(candidate);
                let result = oracle(&t.candidate(candidate).message, &kinds);
                match result {
                    Ok(lists) => step = t.submit_exact(&lists),
                    Err(e) => {
                        t.fail_refinement();
                        return Err(e);
                    }
                }
            }
        }
    }
}

#[test]
fn glyph_counts_with_ties_keep_the_two_highest() {
    let star = glyph("⭐");
    let cfg = config(vec![category(star.clone(), 2)], false, 15, vec![], false);
    let mut t = Toplist::new(cfg, ME).unwrap();
    ingest(
        &mut t,
        vec![
            post(1, vec![reaction(star.clone(), 5, false)]),
            post(2, vec![reaction(star.clone(), 3, false)]),
            post(3, vec![reaction(star.clone(), 3, false)]),
        ],
    );
    assert_eq!(named_ids(&t, 0), vec![1, 2]);
    assert_eq!(named_scores(&t, 0), vec![5, 3]);
}

#[test]
fn named_category_holds_the_k_highest_matched_posts() {
    let star = glyph("⭐");
    let heart = glyph("❤");
    let cfg = config(vec![category(star.clone(), 3)], false, 15, vec![], false);
    let mut t = Toplist::new(cfg, ME).unwrap();
    ingest(
        &mut t,
        vec![
            post(1, vec![reaction(star.clone(), 2, false)]),
            post(2, vec![reaction(heart.clone(), 9, false)]),
            post(3, vec![reaction(star.clone(), 7, false)]),
            post(4, vec![reaction(heart.clone(), 1, false), reaction(star.clone(), 4, true)]),
            post(5, vec![reaction(star.clone(), 1, true)]),
            post(6, vec![reaction(star.clone(), 6, false)]),
        ],
    );
    assert_eq!(named_ids(&t, 0), vec![3, 6, 4]);
    assert_eq!(named_scores(&t, 0), vec![7, 6, 3]);
    assert_eq!(t.candidate(t.top(0).best_first()[0].item).message.id, 3);
}

#[test]
fn fewer_matches_than_capacity_are_all_listed() {
    let star = glyph("⭐");
    let cfg = config(vec![category(star.clone(), 5)], false, 15, vec![], false);
    let mut t = Toplist::new(cfg, ME).unwrap();
    ingest(
        &mut t,
        vec![
            post(1, vec![reaction(star.clone(), 2, false)]),
            post(2, vec![reaction(glyph("x"), 4, false)]),
            post(3, vec![reaction(star.clone(), 1, true)]),
        ],
    );
    // Post 3's only star is the acting identity's own: score 0, never listed.
    assert_eq!(named_ids(&t, 0), vec![1]);
    assert!(t.matched(0));
}

#[test]
fn category_without_matches_is_reported_unmatched() {
    let cfg = config(vec![category(glyph("a"), 2), category(glyph("b"), 2)], false, 1, vec![], false);
    let mut t = Toplist::new(cfg, ME).unwrap();
    ingest(&mut t, vec![post(1, vec![reaction(glyph("a"), 1, true)])]);
    assert!(t.matched(0));
    assert_eq!(t.top(0).len(), 0);
    assert!(!t.matched(1));
}

#[test]
fn zero_cheap_score_is_not_prepared() {
    let star = glyph("⭐");
    let skip = glyph("🚫");
    let cfg = config(vec![category(star.clone(), 2)], true, 3, vec![skip.clone()], false);
    let mut t = Toplist::new(cfg, ME).unwrap();
    ingest(
        &mut t,
        vec![post(1, vec![reaction(star.clone(), 3, false), reaction(skip, 4, false), reaction(glyph("a"), 1, true)])],
    );
    assert_eq!(t.other_prep().len(), 0);
    assert_eq!(named_ids(&t, 0), vec![1]);
}

#[test]
fn custom_emoji_match_by_id() {
    let cfg = config(vec![category(custom("party", 77), 3)], false, 15, vec![], false);
    let mut t = Toplist::new(cfg, ME).unwrap();
    ingest(
        &mut t,
        vec![
            post(1, vec![reaction(custom("renamed", 77), 2, false)]),
            post(2, vec![reaction(custom("party", 78), 5, false)]),
            post(3, vec![reaction(glyph("party"), 5, false)]),
        ],
    );
    assert_eq!(named_ids(&t, 0), vec![1]);
}

#[test]
fn overflow_disabled_finalize_is_a_no_op() {
    let star = glyph("⭐");
    let cfg = config(vec![category(star.clone(), 2)], false, 15, vec![], false);
    let mut t = Toplist::new(cfg, ME).unwrap();
    ingest(&mut t, vec![post(1, vec![reaction(star.clone(), 2, false), reaction(glyph("a"), 3, false)])]);
    let mut calls = 0;
    let r = refine(&mut t, &mut |_, _| {
        calls += 1;
        Ok(vec![])
    });
    assert_eq!(r, Ok(()));
    assert_eq!(calls, 0);
    assert_eq!(t.phase(), Phase::Finalized);
    assert_eq!(t.other().len(), 0);
    assert_eq!(named_ids(&t, 0), vec![1]);
}

#[test]
fn exact_score_counts_distinct_users_not_reactions() {
    let cfg = config(vec![], true, 5, vec![], false);
    let mut t = Toplist::new(cfg, ME).unwrap();
    ingest(
        &mut t,
        vec![post(1, vec![reaction(glyph("a"), 3, false), reaction(glyph("b"), 1, false)])],
    );
    assert_eq!(t.other_prep().best_first()[0].score, 4);
    let r = refine(&mut t, &mut |p, kinds| {
        assert_eq!(p.id, 1);
        assert_eq!(kinds.len(), 2);
        Ok(vec![vec![10, 11, 10], vec![11]])
    });
    assert_eq!(r, Ok(()));
    assert_eq!(other_pairs(&t), vec![(1, 2)]);
    assert_eq!(t.phase(), Phase::Finalized);
}

#[test]
fn acting_identity_is_not_counted_as_a_user() {
    let cfg = config(vec![], true, 5, vec![], false);
    let mut t = Toplist::new(cfg, ME).unwrap();
    ingest(&mut t, vec![post(1, vec![reaction(glyph("a"), 3, true)])]);
    assert_eq!(t.other_prep().best_first()[0].score, 2);
    let r = refine(&mut t, &mut |_, _| Ok(vec![vec![ME, 5, 6]]));
    assert_eq!(r, Ok(()));
    assert_eq!(other_pairs(&t), vec![(1, 2)]);
}

#[test]
fn oracle_error_on_second_candidate_aborts_refinement() {
    let star = glyph("⭐");
    let cfg = config(vec![category(star.clone(), 2)], true, 5, vec![], false);
    let mut t = Toplist::new(cfg, ME).unwrap();
    ingest(
        &mut t,
        vec![
            post(1, vec![reaction(star.clone(), 4, false)]),
            post(2, vec![reaction(glyph("a"), 6, false)]),
            post(3, vec![reaction(glyph("b"), 3, false)]),
        ],
    );
    let mut calls = 0;
    let r = refine(&mut t, &mut |_, _| {
        calls += 1;
        if calls == 2 {
            Err("lookup failed".to_string())
        } else {
            Ok(vec![vec![1, 2, 3]])
        }
    });
    assert_eq!(r, Err("lookup failed".to_string()));
    assert_eq!(calls, 2);
    assert_eq!(t.phase(), Phase::Failed);
    assert_eq!(t.other().len(), 0);
    assert_eq!(named_ids(&t, 0), vec![1]);
    assert_eq!(named_scores(&t, 0), vec![4]);
}

#[test]
fn result_accessors_are_idempotent_after_finalize() {
    let star = glyph("⭐");
    let cfg = config(vec![category(star.clone(), 2)], true, 2, vec![], false);
    let mut t = Toplist::new(cfg, ME).unwrap();
    ingest(
        &mut t,
        vec![
            post(1, vec![reaction(star.clone(), 4, false)]),
            post(2, vec![reaction(glyph("a"), 6, false)]),
            post(3, vec![reaction(glyph("b"), 3, false)]),
        ],
    );
    let r = refine(&mut t, &mut |p, _| Ok(vec![(0..p.id).collect()]));
    assert_eq!(r, Ok(()));
    let first = (named_ids(&t, 0), other_pairs(&t));
    let second = (named_ids(&t, 0), other_pairs(&t));
    assert_eq!(first, second);
    assert_eq!(first.1, vec![(3, 3), (2, 2)]);
}

#[test]
fn refinement_stops_once_the_cheap_score_cannot_beat_the_floor() {
    let cfg = config(vec![], true, 1, vec![], false);
    let mut t = Toplist::new(cfg, ME).unwrap();
    ingest(
        &mut t,
        vec![
            post(1, vec![reaction(glyph("a"), 5, false)]),
            post(2, vec![reaction(glyph("a"), 3, false)]),
            post(3, vec![reaction(glyph("a"), 1, false)]),
        ],
    );
    let mut looked_up = Vec::new();
    let r = refine(&mut t, &mut |p, _| {
        looked_up.push(p.id);
        Ok(vec![vec![1, 2, 3, 4]])
    });
    assert_eq!(r, Ok(()));
    assert_eq!(looked_up, vec![1]);
    assert_eq!(other_pairs(&t), vec![(1, 4)]);
}

#[test]
fn posts_listed_in_a_named_category_are_passed_over() {
    let star = glyph("⭐");
    let cfg = config(vec![category(star.clone(), 2)], true, 3, vec![], false);
    let mut t = Toplist::new(cfg, ME).unwrap();
    ingest(
        &mut t,
        vec![
            post(1, vec![reaction(star.clone(), 2, false), reaction(glyph("a"), 9, false)]),
            post(2, vec![reaction(glyph("a"), 4, false)]),
        ],
    );
    let mut looked_up = Vec::new();
    let r = refine(&mut t, &mut |p, _| {
        looked_up.push(p.id);
        Ok(vec![vec![7]])
    });
    assert_eq!(r, Ok(()));
    assert_eq!(looked_up, vec![2]);
    assert_eq!(other_pairs(&t), vec![(2, 1)]);
}

#[test]
fn cheap_score_leaves_out_category_and_ignored_kinds() {
    let star = glyph("⭐");
    let skip = glyph("🚫");
    let cfg = config(vec![category(star.clone(), 2)], true, 3, vec![skip.clone()], false);
    let mut t = Toplist::new(cfg, ME).unwrap();
    ingest(
        &mut t,
        vec![post(
            1,
            vec![
                reaction(star.clone(), 10, false),
                reaction(glyph("a"), 2, true),
                reaction(skip.clone(), 8, false),
                reaction(glyph("b"), 3, false),
            ],
        )],
    );
    assert_eq!(t.other_prep().best_first()[0].score, 4);
    let kinds = t.stripped_reactions(0);
    let names: Vec<Emoji> = kinds.iter().map(|r| r.kind.clone()).collect();
    assert_eq!(names.len(), 2);
    assert!(matches!(&names[0], Emoji::Unicode { string } if string == "a"));
    assert!(matches!(&names[1], Emoji::Unicode { string } if string == "b"));
}

#[test]
fn exclusive_overflow_leaves_out_matched_posts() {
    let star = glyph("⭐");
    let cfg = config(vec![category(star.clone(), 2)], true, 3, vec![], true);
    let mut t = Toplist::new(cfg, ME).unwrap();
    ingest(
        &mut t,
        vec![
            post(1, vec![reaction(star.clone(), 1, true), reaction(glyph("a"), 9, false)]),
            post(2, vec![reaction(glyph("a"), 4, false)]),
        ],
    );
    let ids: Vec<u64> = t.other_prep().best_first().iter().map(|e| e.id).collect();
    assert_eq!(ids, vec![2]);
}

#[test]
fn inclusive_overflow_prepares_every_post() {
    let star = glyph("⭐");
    let cfg = config(vec![category(star.clone(), 2)], true, 3, vec![], false);
    let mut t = Toplist::new(cfg, ME).unwrap();
    ingest(
        &mut t,
        vec![
            post(1, vec![reaction(star.clone(), 1, true), reaction(glyph("a"), 9, false)]),
            post(2, vec![reaction(glyph("a"), 4, false)]),
        ],
    );
    let ids: Vec<u64> = t.other_prep().best_first().iter().map(|e| e.id).collect();
    assert_eq!(ids, vec![1, 2]);
}

#[test]
fn zero_category_capacity_is_refused() {
    let cfg = config(vec![category(glyph("a"), 2), category(glyph("b"), 0)], true, 3, vec![], false);
    assert_eq!(Toplist::new(cfg, ME).err(), Some(ConfigError::ZeroCategoryCapacity { index: 1 }));
}

#[test]
fn repeated_category_is_refused() {
    let cfg = config(vec![category(custom("x", 5), 2), category(custom("y", 5), 2)], true, 3, vec![], false);
    assert_eq!(Toplist::new(cfg, ME).err(), Some(ConfigError::DuplicateCategory { index: 1 }));
}

#[test]
fn zero_other_capacity_is_refused() {
    let cfg = config(vec![category(glyph("a"), 2)], false, 0, vec![], false);
    assert_eq!(Toplist::new(cfg, ME).err(), Some(ConfigError::ZeroOtherCapacity));
    let ok = config(vec![category(glyph("a"), 2)], false, 1, vec![], false);
    assert!(Toplist::new(ok, ME).is_ok());
}

#[test]
fn defaults_and_target_channel() {
    assert_eq!(default_max(), 15);
    assert_eq!(default_per_reaction_limit(), 50);
    let mut cfg = config(vec![], false, 1, vec![], false);
    assert_eq!(cfg.target_channel_id(), 100);
    cfg.target_channel_id = Some(200);
    assert_eq!(cfg.target_channel_id(), 200);
}

#[test]
fn appended_posts_keep_their_content() {
    let cfg = config(vec![category(glyph("a"), 2)], false, 1, vec![], false);
    let mut t = Toplist::new(cfg, ME).unwrap();
    t.append(post(5, vec![reaction(glyph("a"), 2, false)]), Some("hello".to_string()));
    assert_eq!(t.phase(), Phase::Ingesting);
    let e = t.top(0).best_first()[0].item;
    assert_eq!(t.candidate(e).content.as_deref(), Some("hello"));
    assert_eq!(t.candidate(e).message.id, 5);
}
