//! Rating accumulators, their exact mean and blended scores, and the
//! selection sort that orders them.
//!
//! Ratings are whole numbers in whatever unit the caller picked for a single
//! rating; means are kept as exact fractions, so two means compare exactly.
use vstd::prelude::*;
use core::cmp::Ordering;
use crate::hash_table::{HashMap, Identifiable};

verus! {

/// Weight of a user's own mean against the global mean in a blended score.
pub const PERSONAL_WEIGHT: u128 = 10;

/// A running sum and count of the ratings a player received.
#[derive(Clone, Copy, Debug, PartialEq, Eq, Structural)]
pub struct RatingPlayer {
    pub sofifa_id: u32,
    pub rating_sum: u64,
    pub num_ratings: u32,
}

impl Identifiable for RatingPlayer {
    open spec fn spec_id(&self) -> u32 {
        self.sofifa_id
    }

    fn id(&self) -> (r: u32) {
        self.sofifa_id
    }
}

/// A non-negative fraction `num / den`, with `den > 0`.
#[derive(Clone, Copy, Debug, PartialEq, Eq, Structural)]
pub struct Score {
    pub num: u128,
    pub den: u128,
}

/// `a` is strictly smaller than `b` as fractions.
pub open spec fn score_lt(a: Score, b: Score) -> bool {
    a.num * b.den < b.num * a.den
}

/// The mean of an accumulator: `rating_sum / num_ratings`, or 0 with no ratings.
pub open spec fn mean_of(acc: RatingPlayer) -> Score {
    if acc.num_ratings == 0 {
        Score { num: 0, den: 1 }
    } else {
        Score { num: acc.rating_sum as u128, den: acc.num_ratings as u128 }
    }
}

/// `global`'s mean plus ten times `personal`'s mean, over a common denominator.
pub open spec fn blended_of(global: RatingPlayer, personal: RatingPlayer) -> Score {
    let g = mean_of(global);
    let p = mean_of(personal);
    Score {
        num: (g.num * p.den + PERSONAL_WEIGHT * p.num * g.den) as u128,
        den: (g.den * p.den) as u128,
    }
}

/// `a / b < c / d`, decided without overflow by comparing integer parts and
/// then the reciprocals of the remainders.
pub fn frac_lt(a: u128, b: u128, c: u128, d: u128) -> (r: bool)
    requires
        b > 0,
        d > 0,
    ensures
        r == (a * d < c * b),
    decreases b + d,
{
    let q1 = a / b;
    let r1 = a % b;
    let q2 = c / d;
    let r2 = c % d;
    proof {
        lemma_frac_split(a as int, b as int, c as int, d as int, q1 as int, r1 as int, q2 as int, r2 as int);
    }
    if q1 != q2 {
        q1 < q2
    } else if r2 == 0 {
        false
    } else if r1 == 0 {
        true
    } else {
        proof {
            assert(d * r1 == r1 * d && b * r2 == r2 * b) by (nonlinear_arith);
        }
        frac_lt(d, r2, b, r1)
    }
}

proof fn lemma_frac_split(a: int, b: int, c: int, d: int, q1: int, r1: int, q2: int, r2: int)
    requires
        b > 0,
        d > 0,
        q1 == a / b,
        r1 == a % b,
        q2 == c / d,
        r2 == c % d,
        a >= 0,
        c >= 0,
    ensures
        q1 < q2 ==> a * d < c * b,
        q1 > q2 ==> !(a * d < c * b),
        q1 == q2 ==> (a * d < c * b <==> r1 * d < r2 * b),
        r1 * d >= 0,
        r2 > 0 ==> r2 * b > 0,
        r1 == 0 ==> r1 * d == 0,
{
    vstd::arithmetic::div_mod::lemma_fundamental_div_mod(a, b);
    vstd::arithmetic::div_mod::lemma_fundamental_div_mod(c, d);
    assert(a * d == q1 * b * d + r1 * d) by (nonlinear_arith)
        requires
            a == b * q1 + r1,
    ;
    assert(c * b == q2 * b * d + r2 * b) by (nonlinear_arith)
        requires
            c == d * q2 + r2,
    ;
    assert(0 <= r1 * d < b * d) by (nonlinear_arith)
        requires
            0 <= r1 < b,
            d > 0,
    ;
    assert(0 <= r2 * b < b * d) by (nonlinear_arith)
        requires
            0 <= r2 < d,
            b > 0,
    ;
    assert(r2 > 0 ==> r2 * b > 0) by (nonlinear_arith)
        requires
            b > 0,
    ;
    if q1 < q2 {
        assert(q1 * b * d + b * d <= q2 * b * d) by (nonlinear_arith)
            requires
                q1 < q2,
                b > 0,
                d > 0,
        ;
    }
    if q1 > q2 {
        assert(q2 * b * d + b * d <= q1 * b * d) by (nonlinear_arith)
            requires
                q1 > q2,
                b > 0,
                d > 0,
        ;
    }
}

/// Strict order of fractions with positive denominators is transitive.
pub proof fn lemma_score_lt_transitive(a: Score, b: Score, c: Score)
    requires
        a.den > 0,
        b.den > 0,
        c.den > 0,
        score_lt(a, b),
        score_lt(b, c),
    ensures
        score_lt(a, c),
{
    let (an, ad, bn, bd, cn, cd) = (
        a.num as int,
        a.den as int,
        b.num as int,
        b.den as int,
        c.num as int,
        c.den as int,
    );
    assert(an * cd < cn * ad) by (nonlinear_arith)
        requires
            an * bd < bn * ad,
            bn * cd < cn * bd,
            ad > 0,
            bd > 0,
            cd > 0,
            an >= 0,
            bn >= 0,
            cn >= 0,
    {
        assert(an * bd * cd < bn * ad * cd) by (nonlinear_arith)
            requires
                an * bd < bn * ad,
                cd > 0,
        ;
        assert(bn * cd * ad < cn * bd * ad) by (nonlinear_arith)
            requires
                bn * cd < cn * bd,
                ad > 0,
        ;
        assert(an * cd * bd < cn * ad * bd);
    }
}

impl Score {
    /// `self` is strictly smaller than `other`.
    pub fn less(&self, other: &Score) -> (r: bool)
        requires
            self.den > 0,
            other.den > 0,
        ensures
            r == score_lt(*self, *other),
    {
        frac_lt(self.num, self.den, other.num, other.den)
    }
}

/// Adds one rating to a running total.
pub trait AddRating<T>: Sized {
    /// The rating fits in the running total.
    spec fn can_add(&self, rating: T) -> bool;

    /// `after` is `self` with `rating` added.
    spec fn added(&self, rating: T, after: Self) -> bool;

    fn add_rating(&mut self, rating: T)
        requires
            old(self).can_add(rating),
        ensures
            old(self).added(rating, *final(self)),
    ;
}

impl AddRating<u32> for RatingPlayer {
    open spec fn can_add(&self, rating: u32) -> bool {
        self.rating_sum + rating <= u64::MAX && self.num_ratings < u32::MAX
    }

    open spec fn added(&self, rating: u32, after: Self) -> bool {
        after == RatingPlayer {
            sofifa_id: self.sofifa_id,
            rating_sum: (self.rating_sum + rating) as u64,
            num_ratings: (self.num_ratings + 1) as u32,
        }
    }

    fn add_rating(&mut self, rating: u32) {
        self.rating_sum = self.rating_sum + rating as u64;
        self.num_ratings = self.num_ratings + 1;
    }
}

impl RatingPlayer {
    /// A player's accumulator before any rating.
    pub fn empty(sofifa_id: u32) -> (r: Self)
        ensures
            r == (RatingPlayer { sofifa_id, rating_sum: 0, num_ratings: 0 }),
    {
        RatingPlayer { sofifa_id, rating_sum: 0, num_ratings: 0 }
    }

    /// The mean rating, exactly; 0 when there is no rating.
    pub fn mean(&self) -> (r: Score)
        ensures
            r == mean_of(*self),
            r.den > 0,
    {
        if self.num_ratings == 0 {
            Score { num: 0, den: 1 }
        } else {
            Score { num: self.rating_sum as u128, den: self.num_ratings as u128 }
        }
    }
}

/// `global`'s mean plus ten times `personal`'s mean.
pub fn blended_score(global: &RatingPlayer, personal: &RatingPlayer) -> (r: Score)
    ensures
        r == blended_of(*global, *personal),
        r.den > 0,
{
    let g = global.mean();
    let p = personal.mean();
    proof {
        assert(g.num * p.den <= 0xffff_ffff_ffff_ffff * 0xffff_ffff) by (nonlinear_arith)
            requires
                g.num <= 0xffff_ffff_ffff_ffff,
                p.den <= 0xffff_ffff,
        ;
        assert(p.num * g.den <= 0xffff_ffff_ffff_ffff * 0xffff_ffff) by (nonlinear_arith)
            requires
                p.num <= 0xffff_ffff_ffff_ffff,
                g.den <= 0xffff_ffff,
        ;
        assert(g.den * p.den <= 0xffff_ffff * 0xffff_ffff) by (nonlinear_arith)
            requires
                g.den <= 0xffff_ffff,
                p.den <= 0xffff_ffff,
        ;
        assert(g.den * p.den > 0) by (nonlinear_arith)
            requires
                g.den > 0,
                p.den > 0,
        ;
        assert(PERSONAL_WEIGHT * p.num * g.den == PERSONAL_WEIGHT * (p.num * g.den)) by (nonlinear_arith);
    }
    Score { num: g.num * p.den + PERSONAL_WEIGHT * (p.num * g.den), den: g.den * p.den }
}

/// Relies on `slice::swap`: exchanges the items at `i` and `j`.
#[verifier::external_body]
fn swap_items<T>(v: &mut Vec<T>, i: usize, j: usize)
    requires
        i < old(v)@.len(),
        j < old(v)@.len(),
    ensures
        final(v)@ == old(v)@.update(i as int, old(v)@[j as int]).update(j as int, old(v)@[i as int]),
{
    v.swap(i, j)
}

/// `compare` answers `Less` exactly when `before` holds of its arguments,
/// and `before` is a strict order.
pub open spec fn is_strict_order_of<T, F: Fn(&T, &T) -> Ordering>(
    compare: F,
    before: spec_fn(T, T) -> bool,
) -> bool {
    &&& forall|a: &T, b: &T, o: Ordering| #[trigger]
        compare.ensures((a, b), o) ==> ((o == Ordering::Less) == before(*a, *b))
    &&& forall|a: T| !#[trigger] before(a, a)
    &&& forall|a: T, b: T, c: T| #[trigger] before(a, b) && #[trigger] before(b, c) ==> before(a, c)
}

/// `compare` never answers `Less` for an item of `s` against one before it.
pub open spec fn already_sorted<T, F: Fn(&T, &T) -> Ordering>(compare: F, s: Seq<T>) -> bool {
    forall|i: int, j: int, o: Ordering|
        0 <= i < j < s.len() && #[trigger] compare.ensures((&s[j], &s[i]), o) ==> o != Ordering::Less
}

/// Sorts `arr` in place by selection: each pass brings to the front the
/// first of the remaining items that `compare` puts before all others, and
/// swaps it with the item it replaces. When `compare` follows the strict
/// order `before`, nothing ends up after an item it comes before; a vector
/// that `compare` finds in order is left as it is.
pub fn selection_sort<T, F>(arr: &mut Vec<T>, compare: F, Ghost(before): Ghost<spec_fn(T, T) -> bool>)
    where
        F: Fn(&T, &T) -> Ordering,
    requires
        forall|a: &T, b: &T| #[trigger] compare.requires((a, b)),
    ensures
        final(arr)@.to_multiset() == old(arr)@.to_multiset(),
        is_strict_order_of(compare, before) ==> forall|i: int, j: int|
            0 <= i < j < final(arr)@.len() ==> !before(#[trigger] final(arr)@[j], #[trigger] final(arr)@[i]),
        already_sorted(compare, old(arr)@) ==> final(arr)@ == old(arr)@,
{
    let ghost h = is_strict_order_of(compare, before);
    let ghost sorted0 = already_sorted(compare, old(arr)@);
    let n = arr.len();
    let mut i: usize = 0;
    while i < n
        invariant
            n == arr@.len(),
            i <= n,
            arr@.to_multiset() == old(arr)@.to_multiset(),
            forall|a: &T, b: &T| #[trigger] compare.requires((a, b)),
            h == is_strict_order_of(compare, before),
            sorted0 == already_sorted(compare, old(arr)@),
            h ==> forall|p: int, k: int|
                0 <= p < i && p < k < n ==> !before(#[trigger] arr@[k], #[trigger] arr@[p]),
            sorted0 ==> arr@ == old(arr)@,
        decreases n - i,
    {
        let mut best: usize = i;
        let mut j: usize = i + 1;
        while j < n
            invariant
                n == arr@.len(),
                i < n,
                i <= best < j <= n,
                forall|a: &T, b: &T| #[trigger] compare.requires((a, b)),
                h == is_strict_order_of(compare, before),
                sorted0 == already_sorted(compare, old(arr)@),
                sorted0 ==> arr@ == old(arr)@ && best == i,
                h ==> forall|k: int| i <= k < j ==> !before(#[trigger] arr@[k], arr@[best as int]),
            decreases n - j,
        {
            let o = compare(&arr[j], &arr[best]);
            if matches!(o, Ordering::Less) {
                proof {
                    if h {
                        assert forall|k: int| i <= k < j + 1 implies !before(#[trigger] arr@[k], arr@[j as int]) by {
                            if k < j && before(arr@[k], arr@[j as int]) {
                                assert(before(arr@[k], arr@[best as int]));
                            }
                        }
                    }
                    if sorted0 {
                        assert(compare.ensures((&old(arr)@[j as int], &old(arr)@[i as int]), o));
                    }
                }
                best = j;
            }
            j = j + 1;
        }
        let ghost pre = arr@;
        swap_items(arr, i, best);
        proof {
            if best == i {
                assert(arr@ =~= pre);
            } else {
                vstd::seq_lib::to_multiset_update(pre, i as int, pre[best as int]);
                vstd::seq_lib::to_multiset_update(pre.update(i as int, pre[best as int]), best as int, pre[i as int]);
                let m = pre.to_multiset();
                let x = pre[i as int];
                let y = pre[best as int];
                vstd::seq_lib::to_multiset_contains(pre, x);
                assert(pre.contains(x));
                assert(m.count(x) > 0);
                assert(pre.update(i as int, y)[best as int] == y);
                assert(arr@.to_multiset() == m.insert(y).remove(x).insert(x).remove(y));
                assert(arr@.to_multiset() =~= m);
            }
            if h {
                assert forall|p: int, k: int| 0 <= p < i + 1 && p < k < n implies !before(#[trigger] arr@[k], #[trigger] arr@[p]) by {
                    if p < i {
                        if k == best {
                            assert(arr@[k] == pre[i as int]);
                        } else if k == i {
                            assert(arr@[k] == pre[best as int]);
                        } else {
                            assert(arr@[k] == pre[k]);
                        }
                    } else {
                        if k == best {
                            assert(arr@[k] == pre[i as int]);
                        } else {
                            assert(arr@[k] == pre[k]);
                        }
                    }
                }
            }
        }
        i = i + 1;
    }
}

/// The first strictly precedes the second by mean, higher first.
pub open spec fn higher_mean(a: RatingPlayer, b: RatingPlayer) -> bool {
    score_lt(mean_of(b), mean_of(a))
}

proof fn lemma_higher_mean_order()
    ensures
        forall|a: RatingPlayer| !#[trigger] higher_mean(a, a),
        forall|a: RatingPlayer, b: RatingPlayer, c: RatingPlayer| #[trigger]
            higher_mean(a, b) && #[trigger] higher_mean(b, c) ==> higher_mean(a, c),
{
    assert forall|a: RatingPlayer, b: RatingPlayer, c: RatingPlayer| #[trigger]
        higher_mean(a, b) && #[trigger] higher_mean(b, c) implies higher_mean(a, c) by {
        lemma_score_lt_transitive(mean_of(c), mean_of(b), mean_of(a));
    }
}

/// `Less` when `a` has the higher mean, `Greater` when `b` has, else `Equal`.
pub fn compare_means(a: &RatingPlayer, b: &RatingPlayer) -> (o: Ordering)
    ensures
        (o == Ordering::Less) == higher_mean(*a, *b),
        (o == Ordering::Greater) == higher_mean(*b, *a),
{
    let ma = a.mean();
    let mb = b.mean();
    if mb.less(&ma) {
        Ordering::Less
    } else if ma.less(&mb) {
        Ordering::Greater
    } else {
        Ordering::Equal
    }
}

/// Means do not increase along `s`.
pub open spec fn by_mean_desc(s: Seq<RatingPlayer>) -> bool {
    forall|i: int, j: int| 0 <= i < j < s.len() ==> !score_lt(mean_of(#[trigger] s[i]), mean_of(#[trigger] s[j]))
}

/// Orders a user's own accumulators by mean, highest first.
pub fn sort_user_ratings(user_rating: &mut Vec<RatingPlayer>)
    ensures
        final(user_rating)@.to_multiset() == old(user_rating)@.to_multiset(),
        by_mean_desc(final(user_rating)@),
{
    proof {
        lemma_higher_mean_order();
    }
    assert(is_strict_order_of(compare_means, |a: RatingPlayer, b: RatingPlayer| higher_mean(a, b)));
    selection_sort(user_rating, compare_means, Ghost(|a: RatingPlayer, b: RatingPlayer| higher_mean(a, b)));
}

/// Orders global accumulators by mean, highest first.
pub fn sort_players_by_rating(players: &mut Vec<RatingPlayer>)
    ensures
        final(players)@.to_multiset() == old(players)@.to_multiset(),
        by_mean_desc(final(players)@),
{
    proof {
        lemma_higher_mean_order();
    }
    assert(is_strict_order_of(compare_means, |a: RatingPlayer, b: RatingPlayer| higher_mean(a, b)));
    selection_sort(players, compare_means, Ghost(|a: RatingPlayer, b: RatingPlayer| higher_mean(a, b)));
}

/// The global accumulator of `id`, or an empty one when the table has none.
pub open spec fn global_of(table: HashMap<u32, RatingPlayer>, id: u32) -> RatingPlayer {
    match table.lookup(id) {
        Some(g) => g,
        None => RatingPlayer { sofifa_id: id, rating_sum: 0, num_ratings: 0 },
    }
}

/// The first strictly precedes the second by blended score, higher first.
pub open spec fn higher_blended(
    table: HashMap<u32, RatingPlayer>,
    a: RatingPlayer,
    b: RatingPlayer,
) -> bool {
    score_lt(
        blended_of(global_of(table, b.sofifa_id), b),
        blended_of(global_of(table, a.sofifa_id), a),
    )
}

/// A blended score has a positive denominator.
pub proof fn lemma_blended_den(global: RatingPlayer, personal: RatingPlayer)
    ensures
        blended_of(global, personal).den > 0,
{
    let gd = mean_of(global).den as int;
    let pd = mean_of(personal).den as int;
    assert(0 < gd * pd <= 0xffff_ffff * 0xffff_ffff) by (nonlinear_arith)
        requires
            0 < gd <= 0xffff_ffff,
            0 < pd <= 0xffff_ffff,
    ;
}

/// The blended score of a user's accumulator `personal`, against the global
/// accumulator of the same player in `table`.
pub fn blended_in(table: &HashMap<u32, RatingPlayer>, personal: &RatingPlayer) -> (r: Score)
    requires
        table.wf(),
    ensures
        r == blended_of(global_of(*table, personal.sofifa_id), *personal),
        r.den > 0,
{
    match table.search_non_mut(&personal.sofifa_id) {
        Some(g) => blended_score(g, personal),
        None => blended_score(&RatingPlayer::empty(personal.sofifa_id), personal),
    }
}

/// Blended scores do not increase along `s`.
pub open spec fn by_blended_desc(table: HashMap<u32, RatingPlayer>, s: Seq<RatingPlayer>) -> bool {
    forall|i: int, j: int|
        0 <= i < j < s.len() ==> !higher_blended(table, #[trigger] s[j], #[trigger] s[i])
}

/// Orders a user's accumulators by blended score, highest first.
pub fn sort_user_global_ratings(user_rating: &mut Vec<RatingPlayer>, rating_table: &HashMap<u32, RatingPlayer>)
    requires
        rating_table.wf(),
    ensures
        final(user_rating)@.to_multiset() == old(user_rating)@.to_multiset(),
        by_blended_desc(*rating_table, final(user_rating)@),
{
    proof {
        assert forall|a: RatingPlayer, b: RatingPlayer, c: RatingPlayer| #[trigger]
            higher_blended(*rating_table, a, b) && #[trigger] higher_blended(*rating_table, b, c)
                implies higher_blended(*rating_table, a, c) by {
            let t = *rating_table;
            lemma_blended_den(global_of(t, a.sofifa_id), a);
            lemma_blended_den(global_of(t, b.sofifa_id), b);
            lemma_blended_den(global_of(t, c.sofifa_id), c);
            lemma_score_lt_transitive(
                blended_of(global_of(t, c.sofifa_id), c),
                blended_of(global_of(t, b.sofifa_id), b),
                blended_of(global_of(t, a.sofifa_id), a),
            );
        }
    }
    let compare = (|a: &RatingPlayer, b: &RatingPlayer| -> (o: Ordering)
        requires
            rating_table.wf(),
        ensures
            (o == Ordering::Less) == higher_blended(*rating_table, *a, *b),
        {
            let sa = blended_in(rating_table, a);
            let sb = blended_in(rating_table, b);
            if sb.less(&sa) {
                Ordering::Less
            } else if sa.less(&sb) {
                Ordering::Greater
            } else {
                Ordering::Equal
            }
        });
    let ghost before = |a: RatingPlayer, b: RatingPlayer| higher_blended(*rating_table, a, b);
    assert(is_strict_order_of(compare, before));
    selection_sort(
        user_rating,
        compare,
        Ghost(before),
    );
}

} // verus!
