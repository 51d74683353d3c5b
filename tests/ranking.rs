use player_index::hash_table::HashMap;
use player_index::ranking::{
    blended_score, compare_means, frac_lt, sort_players_by_rating,
    sort_user_global_ratings, sort_user_ratings, AddRating, RatingPlayer, Score,
};
use std::cmp::Ordering;

fn acc(id: u32, sum: u64, count: u32) -> RatingPlayer {
    RatingPlayer { sofifa_id: id, rating_sum: sum, num_ratings: count }
}

#[test]
fn accumulator_scenario() {
    let mut a = RatingPlayer::empty(7);
    assert_eq!(a, acc(7, 0, 0));
    a.add_rating(4);
    a.add_rating(2);
    assert_eq!(a, acc(7, 6, 2));
    let m = a.mean();
    assert_eq!(m, Score { num: 6, den: 2 });
    let three = Score { num: 3, den: 1 };
    assert!(!m.less(&three));
    assert!(!three.less(&m));
}

#[test]
fn mean_without_ratings_is_zero() {
    let m = RatingPlayer::empty(1).mean();
    assert_eq!(m, Score { num: 0, den: 1 });
    assert!(!m.less(&Score { num: 0, den: 5 }));
    assert!(m.less(&Score { num: 1, den: 1000 }));
}

#[test]
fn fractions_compare_exactly() {
    assert!(frac_lt(1, 3, 1, 2));
    assert!(!frac_lt(1, 2, 1, 3));
    assert!(!frac_lt(2, 4, 1, 2));
    assert!(frac_lt(7, 5, 10, 7));
    assert!(!frac_lt(10, 7, 7, 5));
    let big = u128::MAX;
    assert!(frac_lt(big - 1, big, big, big));
    assert!(!frac_lt(big, big, big - 1, big));
    assert!(frac_lt(big - 2, big - 1, big - 1, big));
}

#[test]
fn blended_score_weights_personal_mean() {
    let global = acc(1, 30, 4);
    let personal = acc(1, 5, 1);
    let s = blended_score(&global, &personal);
    assert_eq!(s, Score { num: 30 + 10 * 5 * 4, den: 4 });
    let none = blended_score(&RatingPlayer::empty(1), &personal);
    assert_eq!(none, Score { num: 50, den: 1 });
}

#[test]
fn ranking_by_mean_is_non_increasing() {
    let mut v = vec![acc(1, 8, 2), acc(2, 27, 3), acc(3, 0, 0), acc(4, 5, 1)];
    sort_players_by_rating(&mut v);
    let ids: Vec<u32> = v.iter().map(|a| a.sofifa_id).collect();
    assert_eq!(ids, vec![2, 4, 1, 3]);
    let mut w = vec![acc(1, 1, 1), acc(2, 9, 3), acc(3, 4, 2)];
    sort_user_ratings(&mut w);
    let ids: Vec<u32> = w.iter().map(|a| a.sofifa_id).collect();
    assert_eq!(ids, vec![2, 3, 1]);
}

#[test]
fn compare_means_orders_higher_first() {
    assert_eq!(compare_means(&acc(1, 9, 1), &acc(2, 8, 1)), Ordering::Less);
    assert_eq!(compare_means(&acc(1, 8, 1), &acc(2, 9, 1)), Ordering::Greater);
    assert_eq!(compare_means(&acc(1, 8, 1), &acc(2, 16, 2)), Ordering::Equal);
}

#[test]
fn blended_ranking_prefers_personal_opinion() {
    let mut table: HashMap<u32, RatingPlayer> = HashMap::new(10);
    table.insert(1, acc(1, 50, 5));
    table.insert(2, acc(2, 90, 10));
    table.insert(3, acc(3, 10, 10));
    let mut mine = vec![acc(1, 3, 1), acc(2, 2, 1), acc(3, 5, 1)];
    sort_user_global_ratings(&mut mine, &table);
    let ids: Vec<u32> = mine.iter().map(|a| a.sofifa_id).collect();
    assert_eq!(ids, vec![3, 1, 2]);
}
