use player_index::catalog::Catalog;
use player_index::records::{split_positions, Player, RatingFile, Tags};

fn player(id: u32, long_name: &str, positions: &str) -> Player {
    Player {
        sofifa_id: id,
        short_name: format!("P{}", id),
        long_name: long_name.to_string(),
        player_positions: positions.to_string(),
        nationality: "Nowhere".to_string(),
        club_name: "Club".to_string(),
        league_name: "League".to_string(),
    }
}

fn rate(c: &mut Catalog, user: u32, id: u32, rating: u32, times: u32) {
    for _ in 0..times {
        assert!(c.add_rating(RatingFile { user_id: user, sofifa_id: id, rating }));
    }
}

fn ids(v: &[player_index::ranking::RatingPlayer]) -> Vec<u32> {
    v.iter().map(|a| a.sofifa_id).collect()
}

#[test]
fn tags_intersection_scenario() {
    let mut c = Catalog::new();
    for id in 1..=4 {
        c.add_player(player(id, &format!("Name {}", id), "ST"));
    }
    for id in [1u32, 2, 3] {
        c.add_tag(&Tags { user_id: 9, sofifa_id: id, tag: "great".to_string() });
    }
    for id in [2u32, 3, 4] {
        c.add_tag(&Tags { user_id: 9, sofifa_id: id, tag: "Fast".to_string() });
    }
    let mut found = ids(&c.players_with_tags(&vec!["great".to_string(), "fast".to_string()]));
    found.sort();
    assert_eq!(found, vec![2, 3]);
    let mut one = ids(&c.players_with_tags(&vec!["great".to_string(), "unknown".to_string()]));
    one.sort();
    assert_eq!(one, vec![1, 2, 3]);
    assert_eq!(c.players_with_tags(&vec!["unknown".to_string(), "fast".to_string()]).len(), 0);
}

#[test]
fn top_by_position_scenario() {
    let mut c = Catalog::new();
    c.add_player(player(1, "Alpha", "ST"));
    c.add_player(player(2, "Beta", "ST, LW"));
    c.add_player(player(3, "Gamma", "CF,ST"));
    rate(&mut c, 1, 1, 8, 1500);
    rate(&mut c, 1, 2, 9, 900);
    rate(&mut c, 1, 3, 7, 1000);
    rate(&mut c, 1, 3, 8, 1000);
    let top = c.top_in_position(2, "ST").unwrap();
    assert_eq!(ids(&top), vec![1, 3]);
    assert_eq!(top[0].num_ratings, 1500);
    assert_eq!(top[1].num_ratings, 2000);
    let more = c.top_in_position(5, "st").unwrap();
    assert_eq!(ids(&more), vec![1, 3]);
    let lw = c.top_in_position(3, "LW").unwrap();
    assert_eq!(lw.len(), 0);
    assert!(c.top_in_position(3, "GK").is_none());
}

#[test]
fn player_prefix_ranked_by_mean() {
    let mut c = Catalog::new();
    c.add_player(player(1, "Ann Smith", "ST"));
    c.add_player(player(2, "Anna Jones", "GK"));
    c.add_player(player(3, "Bob", "CB"));
    rate(&mut c, 5, 1, 3, 2);
    rate(&mut c, 5, 2, 4, 1);
    rate(&mut c, 5, 3, 5, 1);
    assert_eq!(ids(&c.get_player_start_with("an")), vec![2, 1]);
    assert_eq!(ids(&c.get_player_start_with("ANN S")), vec![1]);
    assert_eq!(c.get_player_start_with("zed").len(), 0);
}

#[test]
fn user_ranking_blends_and_caps() {
    let mut c = Catalog::new();
    for id in 1..=25 {
        c.add_player(player(id, &format!("N{}", id), "ST"));
    }
    for id in 1..=25 {
        rate(&mut c, 7, id, id % 5, 1);
    }
    rate(&mut c, 8, 3, 5, 1);
    let ranked = c.user_ranking(7).unwrap();
    assert_eq!(ranked.len(), 20);
    assert_eq!(ranked[0].rating_sum, 4);
    assert!(c.user_ranking(99).is_none());
    let other = c.user_ranking(8).unwrap();
    assert_eq!(ids(&other), vec![3]);
}

#[test]
fn rating_an_unknown_player_changes_nothing() {
    let mut c = Catalog::new();
    c.add_player(player(1, "A", "ST"));
    assert!(!c.add_rating(RatingFile { user_id: 1, sofifa_id: 2, rating: 5 }));
    assert!(c.user_ranking(1).is_none());
    assert!(c.add_rating(RatingFile { user_id: 1, sofifa_id: 1, rating: 5 }));
    let acc = c.rating(1).unwrap();
    assert_eq!((acc.rating_sum, acc.num_ratings), (5, 1));
    assert!(c.rating(2).is_none());
    assert_eq!(c.player(1).unwrap().long_name, "A");
    assert!(c.player(2).is_none());
}

#[test]
fn positions_are_split_and_stripped() {
    assert_eq!(split_positions("ST, LW ,C M"), vec!["ST".to_string(), "LW".to_string(), "CM".to_string()]);
    assert_eq!(split_positions(""), vec!["".to_string()]);
    assert_eq!(split_positions("GK"), vec!["GK".to_string()]);
}

#[test]
fn tables_report_occupancy() {
    let mut c = Catalog::new();
    c.add_player(player(1, "A", "ST"));
    c.add_player(player(3001, "B", "ST"));
    c.add_player(player(2, "C", "ST"));
    assert_eq!(c.players_table().occupancy(), 2);
    assert_eq!(c.ratings_table().occupancy(), 2);
    assert_eq!(c.users_table().occupancy(), 0);
}
