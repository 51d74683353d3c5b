//! The index over players, ratings and tags, and the queries it answers.
use vstd::prelude::*;
use crate::hash_table::HashMap;
use crate::ranking::{
    by_blended_desc, by_mean_desc, sort_players_by_rating, sort_user_global_ratings,
    sort_user_ratings, AddRating, RatingPlayer,
};
use crate::records::{positions_of, split_positions, Player, RatingFile, Tags, User};
use crate::text::lower_of;
use crate::trie::{ids_in, with_id, with_ids, Trie};

verus! {

/// Bucket count of the player and rating tables.
pub const PLAYER_BUCKETS: usize = 3000;

/// Bucket count of the user table.
pub const USER_BUCKETS: usize = 20000;

/// Ratings a player needs to appear in a positional top list.
pub const TOP_MIN_RATINGS: u32 = 1000;

/// Length of a user's ranking.
pub const USER_TOP: usize = 20;

/// The accumulators of `ids`, in order, for those ids that have a player
/// record and an accumulator with at least `min` ratings.
pub open spec fn eligible(
    players: HashMap<u32, Player>,
    ratings: HashMap<u32, RatingPlayer>,
    ids: Seq<u32>,
    min: u32,
) -> Seq<RatingPlayer>
    decreases ids.len(),
{
    if ids.len() == 0 {
        Seq::<RatingPlayer>::empty()
    } else {
        let prev = eligible(players, ratings, ids.drop_last(), min);
        match ratings.lookup(ids.last()) {
            Some(a) => if players.lookup(ids.last()) is Some && a.num_ratings >= min {
                prev.push(a)
            } else {
                prev
            },
            None => prev,
        }
    }
}

/// The eligible accumulators of the ids of each word of `ws`, word by word.
pub open spec fn eligible_words(
    names: Map<Seq<char>, Seq<u32>>,
    players: HashMap<u32, Player>,
    ratings: HashMap<u32, RatingPlayer>,
    ws: Seq<Seq<char>>,
) -> Seq<RatingPlayer>
    decreases ws.len(),
{
    if ws.len() == 0 {
        Seq::<RatingPlayer>::empty()
    } else {
        eligible_words(names, players, ratings, ws.drop_last()) + eligible(
            players,
            ratings,
            ids_in(names, ws.last()),
            0,
        )
    }
}

/// The ids carrying every tag of `ts` that is known: the ids of the first
/// tag, kept where each later tag with ids also has them.
pub open spec fn tag_candidates(tags: Map<Seq<char>, Seq<u32>>, ts: Seq<Seq<char>>) -> Seq<u32>
    decreases ts.len(),
{
    if ts.len() == 0 {
        Seq::<u32>::empty()
    } else if ts.len() == 1 {
        ids_in(tags, lower_of(ts[0]))
    } else {
        let prev = tag_candidates(tags, ts.drop_last());
        let s = ids_in(tags, lower_of(ts.last()));
        if s.len() > 0 {
            prev.filter(|id: u32| s.contains(id))
        } else {
            prev
        }
    }
}

/// `ws` lists each word of `t` that starts with `p`, once each, and nothing else.
pub open spec fn lists_words(t: Trie, p: Seq<char>, ws: Seq<Seq<char>>) -> bool {
    &&& forall|k: int| 0 <= k < ws.len() ==> t.under(p, #[trigger] ws[k])
    &&& forall|k1: int, k2: int|
        0 <= k1 < ws.len() && 0 <= k2 < ws.len() && k1 != k2 ==> #[trigger] ws[k1] != #[trigger] ws[k2]
    &&& forall|w: Seq<char>| #[trigger] t.under(p, w) ==> ws.contains(w)
}

/// The first `n` items of `s`, or all of them when there are fewer.
pub open spec fn first_n<T>(s: Seq<T>, n: int) -> Seq<T> {
    if n < s.len() {
        s.take(n)
    } else {
        s
    }
}

/// The items of `v` that `keep` also holds, in order.
pub fn retain_in(v: &Vec<u32>, keep: &Vec<u32>) -> (r: Vec<u32>)
    ensures
        r@ == v@.filter(|id: u32| keep@.contains(id)),
{
    let mut r: Vec<u32> = Vec::new();
    let mut i: usize = 0;
    while i < v.len()
        invariant
            i <= v@.len(),
            r@ == v@.take(i as int).filter(|id: u32| keep@.contains(id)),
        decreases v@.len() - i,
    {
        let x = v[i];
        let mut found = false;
        let mut j: usize = 0;
        while j < keep.len()
            invariant
                j <= keep@.len(),
                found == exists|q: int| 0 <= q < j && keep@[q] == x,
            decreases keep@.len() - j,
        {
            if keep[j] == x {
                found = true;
            }
            j = j + 1;
        }
        proof {
            assert(v@.take(i + 1) == v@.take(i as int).push(x));
            v@.take(i as int).lemma_filter_push(x, |id: u32| keep@.contains(id));
        }
        if found {
            r.push(x);
        }
        i = i + 1;
    }
    proof {
        assert(v@.take(i as int) == v@);
    }
    r
}

/// The first `n` items of `v`.
fn take_first(v: &Vec<RatingPlayer>, n: usize) -> (r: Vec<RatingPlayer>)
    ensures
        r@ == first_n(v@, n as int),
{
    let mut r: Vec<RatingPlayer> = Vec::new();
    let mut i: usize = 0;
    while i < v.len() && i < n
        invariant
            i <= v@.len(),
            i <= n,
            r@ == v@.take(i as int),
        decreases v@.len() - i,
    {
        r.push(v[i]);
        assert(r@ == v@.take(i + 1));
        i = i + 1;
    }
    assert(r@ == first_n(v@, n as int));
    r
}

/// The player, rating, user and index tables, built once by ingestion and
/// read by the queries.
pub struct Catalog {
    players: HashMap<u32, Player>,
    ratings: HashMap<u32, RatingPlayer>,
    users: HashMap<u32, User>,
    names: Trie,
    tags: Trie,
    positions: Trie,
}

impl Catalog {
    pub closed spec fn players(&self) -> HashMap<u32, Player> {
        self.players
    }

    pub closed spec fn ratings(&self) -> HashMap<u32, RatingPlayer> {
        self.ratings
    }

    pub closed spec fn users(&self) -> HashMap<u32, User> {
        self.users
    }

    pub closed spec fn names(&self) -> Trie {
        self.names
    }

    pub closed spec fn tags(&self) -> Trie {
        self.tags
    }

    pub closed spec fn positions(&self) -> Trie {
        self.positions
    }

    pub closed spec fn wf(&self) -> bool {
        &&& self.players.wf()
        &&& self.ratings.wf()
        &&& self.users.wf()
        &&& self.names.wf()
        &&& self.tags.wf()
        &&& self.positions.wf()
        &&& forall|id: u32| #[trigger] self.ratings.lookup(id) is Some ==> self.ratings.lookup(id)->0.sofifa_id == id
        &&& forall|id: u32| #[trigger] self.users.lookup(id) is Some ==> self.users.lookup(id)->0.user_id == id
    }

    /// An empty catalog.
    pub fn new() -> (r: Self)
        ensures
            r.wf(),
            forall|id: u32| #[trigger] r.players().lookup(id) is None,
            forall|id: u32| #[trigger] r.ratings().lookup(id) is None,
            forall|id: u32| #[trigger] r.users().lookup(id) is None,
            r.names()@ == Map::<Seq<char>, Seq<u32>>::empty(),
            r.tags()@ == Map::<Seq<char>, Seq<u32>>::empty(),
            r.positions()@ == Map::<Seq<char>, Seq<u32>>::empty(),
    {
        let r = Catalog {
            players: HashMap::new(PLAYER_BUCKETS),
            ratings: HashMap::new(PLAYER_BUCKETS),
            users: HashMap::new(USER_BUCKETS),
            names: Trie::new(),
            tags: Trie::new(),
            positions: Trie::new(),
        };
        proof {
            assert forall|id: u32| #[trigger] r.players().lookup(id) is None by {
                crate::hash_table::lemma_lookup_absent(r.players, id);
            }
            assert forall|id: u32| #[trigger] r.ratings().lookup(id) is None by {
                crate::hash_table::lemma_lookup_absent(r.ratings, id);
            }
            assert forall|id: u32| #[trigger] r.users().lookup(id) is None by {
                crate::hash_table::lemma_lookup_absent(r.users, id);
            }
        }
        r
    }

    /// Stores a player with an empty accumulator, and indexes its long name
    /// and each of its positions under its id.
    pub fn add_player(&mut self, record: Player)
        requires
            old(self).wf(),
        ensures
            final(self).wf(),
            final(self).players().spec_modulo() == old(self).players().spec_modulo(),
            final(self).players().chains() == old(self).players().pushed(record.sofifa_id, record),
            final(self).ratings().spec_modulo() == old(self).ratings().spec_modulo(),
            final(self).ratings().chains() == old(self).ratings().pushed(
                record.sofifa_id,
                RatingPlayer { sofifa_id: record.sofifa_id, rating_sum: 0, num_ratings: 0 },
            ),
            final(self).names()@ == with_id(old(self).names()@, lower_of(record.long_name@), record.sofifa_id),
            final(self).positions()@ == with_ids(
                old(self).positions()@,
                positions_of(record.player_positions@),
                record.sofifa_id,
            ),
            final(self).users() == old(self).users(),
            final(self).tags() == old(self).tags(),
    {
        let id = record.sofifa_id;
        self.names.insert_with_id(record.long_name.as_str(), id);
        let list = split_positions(record.player_positions.as_str());
        let ghost all = positions_of(record.player_positions@);
        let ghost start = self.positions@;
        let mut k: usize = 0;
        while k < list.len()
            invariant
                list@.map_values(|p: String| p@) == all,
                k <= list@.len(),
                self.positions.wf(),
                self.positions@ == with_ids(start, all.take(k as int), id),
                self.players == old(self).players,
                self.ratings == old(self).ratings,
                self.users == old(self).users,
                self.tags == old(self).tags,
                self.names.wf(),
                self.names@ == with_id(old(self).names@, lower_of(record.long_name@), id),
            decreases list@.len() - k,
        {
            proof {
                assert(all.take(k + 1).drop_last() == all.take(k as int));
                assert(all.take(k + 1).last() == list@[k as int]@);
            }
            self.positions.insert_with_id(list[k].as_str(), id);
            k = k + 1;
        }
        proof {
            assert(all.take(k as int) == all);
        }
        let ghost ratings_before = self.ratings;
        self.ratings.insert(id, RatingPlayer::empty(id));
        proof {
            assert forall|q: u32| #[trigger] self.ratings.lookup(q) is Some implies self.ratings.lookup(q)->0.sofifa_id == q by {
                crate::hash_table::lemma_lookup_after_insert(ratings_before, self.ratings, id, RatingPlayer { sofifa_id: id, rating_sum: 0, num_ratings: 0 }, q);
            }
        }
        self.players.insert(id, record);
    }

    /// Records one rating: adds it to the player's accumulator and appends a
    /// one-rating accumulator to the user's list, making the user if needed.
    /// Nothing changes, and the result is false, when the player has no
    /// accumulator or its accumulator cannot take the rating.
    pub fn add_rating(&mut self, event: RatingFile) -> (r: bool)
        requires
            old(self).wf(),
        ensures
            final(self).wf(),
            r == match old(self).ratings().lookup(event.sofifa_id) {
                Some(a) => a.can_add(event.rating),
                None => false,
            },
            !r ==> *final(self) == *old(self),
            r ==> {
                let single = RatingPlayer {
                    sofifa_id: event.sofifa_id,
                    rating_sum: event.rating as u64,
                    num_ratings: 1,
                };
                &&& old(self).ratings().lookup(event.sofifa_id)->0.added(
                    event.rating,
                    final(self).ratings().lookup(event.sofifa_id)->0,
                )
                &&& final(self).ratings().lookup(event.sofifa_id) is Some
                &&& forall|id: u32|
                    id != event.sofifa_id ==> #[trigger] final(self).ratings().lookup(id) == old(
                        self,
                    ).ratings().lookup(id)
                &&& final(self).users().lookup(event.user_id) is Some
                &&& final(self).users().lookup(event.user_id)->0.user_id == event.user_id
                &&& final(self).users().lookup(event.user_id)->0.ratings@ == match old(
                    self,
                ).users().lookup(event.user_id) {
                    Some(u) => u.ratings@.push(single),
                    None => seq![single],
                }
                &&& forall|id: u32|
                    id != event.user_id ==> #[trigger] final(self).users().lookup(id) == old(
                        self,
                    ).users().lookup(id)
                &&& final(self).players() == old(self).players()
                &&& final(self).names() == old(self).names()
                &&& final(self).tags() == old(self).tags()
                &&& final(self).positions() == old(self).positions()
            },
    {
        let sid = event.sofifa_id;
        let uid = event.user_id;
        let ghost before = self.ratings;
        match self.ratings.search_non_mut(&sid) {
            None => {
                return false;
            },
            Some(acc) => {
                if !(acc.rating_sum <= u64::MAX - event.rating as u64 && acc.num_ratings < u32::MAX) {
                    return false;
                }
            },
        }
        match self.ratings.search(&sid) {
            Some(acc) => {
                acc.add_rating(event.rating);
            },
            None => {},
        }
        proof {
            let a = before.lookup(sid)->0;
            let added = RatingPlayer {
                sofifa_id: a.sofifa_id,
                rating_sum: (a.rating_sum + event.rating) as u64,
                num_ratings: (a.num_ratings + 1) as u32,
            };
            crate::hash_table::lemma_lookup_after_update(before, self.ratings, sid, added, sid);
            assert forall|id: u32| id != sid implies #[trigger] self.ratings.lookup(id)
                == before.lookup(id) by {
                crate::hash_table::lemma_lookup_after_update(before, self.ratings, sid, added, id);
            }
        }
        let single = RatingPlayer { sofifa_id: sid, rating_sum: event.rating as u64, num_ratings: 1 };
        let ghost users_before = self.users;
        let ghost mut new_user: User;
        match self.users.search(&uid) {
            Some(user) => {
                user.add_rating(single);
                proof {
                    new_user = *user;
                }
            },
            None => {
                let mut list: Vec<RatingPlayer> = Vec::new();
                list.push(single);
                let u = User { user_id: uid, ratings: list };
                proof {
                    new_user = u;
                }
                self.users.insert(uid, u);
            },
        }
        proof {
            if users_before.lookup(uid) is Some {
                crate::hash_table::lemma_lookup_after_update(users_before, self.users, uid, new_user, uid);
            } else {
                crate::hash_table::lemma_lookup_after_insert(users_before, self.users, uid, new_user, uid);
            }
            assert forall|id: u32| id != uid implies #[trigger] self.users.lookup(id)
                == users_before.lookup(id) by {
                if users_before.lookup(uid) is Some {
                    crate::hash_table::lemma_lookup_after_update(users_before, self.users, uid, new_user, id);
                } else {
                    crate::hash_table::lemma_lookup_after_insert(users_before, self.users, uid, new_user, id);
                }
            }
        }
        true
    }

    /// Indexes the player of `record` under its tag.
    pub fn add_tag(&mut self, record: &Tags)
        requires
            old(self).wf(),
        ensures
            final(self).wf(),
            final(self).tags()@ == with_id(old(self).tags()@, lower_of(record.tag@), record.sofifa_id),
            final(self).players() == old(self).players(),
            final(self).ratings() == old(self).ratings(),
            final(self).users() == old(self).users(),
            final(self).names() == old(self).names(),
            final(self).positions() == old(self).positions(),
    {
        self.tags.insert_with_id(record.tag.as_str(), record.sofifa_id);
    }

    pub fn players_table(&self) -> (r: &HashMap<u32, Player>)
        ensures
            *r == self.players(),
    {
        &self.players
    }

    pub fn ratings_table(&self) -> (r: &HashMap<u32, RatingPlayer>)
        ensures
            *r == self.ratings(),
    {
        &self.ratings
    }

    pub fn users_table(&self) -> (r: &HashMap<u32, User>)
        ensures
            *r == self.users(),
    {
        &self.users
    }

    /// The record of player `id`.
    pub fn player(&self, id: u32) -> (r: Option<&Player>)
        requires
            self.wf(),
        ensures
            match r {
                Some(p) => self.players().lookup(id) == Some(*p),
                None => self.players().lookup(id) is None,
            },
    {
        self.players.search_non_mut(&id)
    }

    /// The global accumulator of player `id`.
    pub fn rating(&self, id: u32) -> (r: Option<RatingPlayer>)
        requires
            self.wf(),
        ensures
            r == self.ratings().lookup(id),
    {
        match self.ratings.search_non_mut(&id) {
            Some(a) => Some(*a),
            None => None,
        }
    }

    /// Appends to `out` the eligible accumulators of `ids`, in their order.
    fn gather(&self, ids: &Vec<u32>, min: u32, out: &mut Vec<RatingPlayer>)
        requires
            self.wf(),
        ensures
            final(out)@ == old(out)@ + eligible(self.players, self.ratings, ids@, min),
    {
        let mut i: usize = 0;
        while i < ids.len()
            invariant
                self.wf(),
                i <= ids@.len(),
                out@ == old(out)@ + eligible(self.players, self.ratings, ids@.take(i as int), min),
            decreases ids@.len() - i,
        {
            let id = ids[i];
            proof {
                assert(ids@.take(i + 1).drop_last() == ids@.take(i as int));
                assert(ids@.take(i + 1).last() == id);
            }
            let ghost prev = out@;
            match self.ratings.search_non_mut(&id) {
                Some(a) => {
                    if a.num_ratings >= min {
                        match self.players.search_non_mut(&id) {
                            Some(_) => {
                                out.push(*a);
                                proof {
                                    assert(out@ =~= old(out)@ + eligible(
                                        self.players,
                                        self.ratings,
                                        ids@.take(i + 1),
                                        min,
                                    ));
                                }
                            },
                            None => {},
                        }
                    }
                },
                None => {},
            }
            i = i + 1;
        }
        proof {
            assert(ids@.take(i as int) == ids@);
        }
    }

    /// The accumulators of the players whose long name starts with `prefix`
    /// (lower-cased), highest mean first.
    pub fn get_player_start_with(&self, prefix: &str) -> (r: Vec<RatingPlayer>)
        requires
            self.wf(),
        ensures
            by_mean_desc(r@),
            exists|ws: Seq<Seq<char>>|
                lists_words(self.names(), lower_of(prefix@), ws) && r@.to_multiset()
                    == eligible_words(self.names()@, self.players(), self.ratings(), ws).to_multiset(),
    {
        let words = self.names.get_words_starting_with(prefix);
        let ghost ws = words@.map_values(|s: String| s@);
        let mut gathered: Vec<RatingPlayer> = Vec::new();
        let mut k: usize = 0;
        while k < words.len()
            invariant
                self.wf(),
                ws == words@.map_values(|s: String| s@),
                k <= words@.len(),
                gathered@ == eligible_words(self.names@, self.players, self.ratings, ws.take(k as int)),
            decreases words@.len() - k,
        {
            proof {
                assert(ws.take(k + 1).drop_last() == ws.take(k as int));
                assert(ws.take(k + 1).last() == words@[k as int]@);
            }
            match self.names.ids_of_word(words[k].as_str()) {
                Some(ids) => {
                    self.gather(&ids, 0, &mut gathered);
                },
                None => {
                    proof {
                        let w = words@[k as int]@;
                        assert(ids_in(self.names@, w) =~= Seq::<u32>::empty());
                        assert(gathered@ =~= gathered@ + eligible(
                            self.players,
                            self.ratings,
                            ids_in(self.names@, w),
                            0,
                        ));
                    }
                },
            }
            k = k + 1;
        }
        proof {
            assert(ws.take(k as int) == ws);
        }
        let ghost all = gathered@;
        sort_user_ratings(&mut gathered);
        proof {
            let p = lower_of(prefix@);
            assert forall|w: Seq<char>| #[trigger] self.names.under(p, w) implies ws.contains(w) by {
                let k = choose|k: int| 0 <= k < words@.len() && #[trigger] words@[k]@ == w;
                assert(ws[k] == w);
            }
            assert(lists_words(self.names, p, ws));
            assert(all == eligible_words(self.names@, self.players, self.ratings, ws));
            assert(lists_words(self.names(), lower_of(prefix@), ws) && gathered@.to_multiset()
                == eligible_words(self.names()@, self.players(), self.ratings(), ws).to_multiset());
        }
        gathered
    }

    /// A user's own accumulators, highest blended score first, at most
    /// twenty of them; `None` when the user is unknown.
    pub fn user_ranking(&self, user_id: u32) -> (r: Option<Vec<RatingPlayer>>)
        requires
            self.wf(),
        ensures
            match r {
                None => self.users().lookup(user_id) is None,
                Some(v) => self.users().lookup(user_id) is Some && exists|s: Seq<RatingPlayer>|
                    s.to_multiset() == self.users().lookup(user_id)->0.ratings@.to_multiset()
                        && by_blended_desc(self.ratings(), s) && v@ == first_n(s, USER_TOP as int),
            },
    {
        match self.users.search_non_mut(&user_id) {
            None => None,
            Some(u) => {
                let mut list = take_first(&u.ratings, u.ratings.len());
                sort_user_ratings(&mut list);
                sort_user_global_ratings(&mut list, &self.ratings);
                Some(take_first(&list, USER_TOP))
            },
        }
    }

    /// The accumulators of the players that carry every given tag that is
    /// known (lower-cased), highest mean first.
    pub fn players_with_tags(&self, tags: &Vec<String>) -> (r: Vec<RatingPlayer>)
        requires
            self.wf(),
        ensures
            by_mean_desc(r@),
            r@.to_multiset() == eligible(
                self.players(),
                self.ratings(),
                tag_candidates(self.tags()@, tags@.map_values(|s: String| s@)),
                0,
            ).to_multiset(),
    {
        let ghost ts = tags@.map_values(|s: String| s@);
        let mut cand: Vec<u32> = Vec::new();
        if tags.len() > 0 {
            match self.tags.get_id(tags[0].as_str()) {
                Some(v) => {
                    cand = v;
                },
                None => {},
            }
            proof {
                assert(cand@ =~= tag_candidates(self.tags@, ts.take(1)));
            }
            let mut k: usize = 1;
            while k < tags.len()
                invariant
                    self.wf(),
                    ts == tags@.map_values(|s: String| s@),
                    1 <= k <= tags@.len(),
                    cand@ == tag_candidates(self.tags@, ts.take(k as int)),
                decreases tags@.len() - k,
            {
                proof {
                    assert(ts.take(k + 1).drop_last() == ts.take(k as int));
                    assert(ts.take(k + 1).last() == tags@[k as int]@);
                }
                match self.tags.get_id(tags[k].as_str()) {
                    Some(search) => {
                        cand = retain_in(&cand, &search);
                    },
                    None => {},
                }
                k = k + 1;
            }
            proof {
                assert(ts.take(k as int) == ts);
            }
        }
        let mut out: Vec<RatingPlayer> = Vec::new();
        self.gather(&cand, 0, &mut out);
        proof {
            assert(out@ =~= eligible(self.players, self.ratings, cand@, 0));
        }
        sort_user_ratings(&mut out);
        out
    }

    /// The first `n` accumulators, highest mean first, of the players indexed
    /// under `position` (lower-cased) that hold at least a thousand ratings;
    /// `None` when no player is indexed under it.
    pub fn top_in_position(&self, n: u32, position: &str) -> (r: Option<Vec<RatingPlayer>>)
        requires
            self.wf(),
        ensures
            match r {
                None => ids_in(self.positions()@, lower_of(position@)).len() == 0,
                Some(v) => exists|s: Seq<RatingPlayer>|
                    s.to_multiset() == eligible(
                        self.players(),
                        self.ratings(),
                        ids_in(self.positions()@, lower_of(position@)),
                        TOP_MIN_RATINGS,
                    ).to_multiset() && by_mean_desc(s) && v@ == first_n(s, n as int),
            },
    {
        match self.positions.get_id(position) {
            None => None,
            Some(ids) => {
                let mut out: Vec<RatingPlayer> = Vec::new();
                self.gather(&ids, TOP_MIN_RATINGS, &mut out);
                proof {
                    assert(out@ =~= eligible(self.players, self.ratings, ids@, TOP_MIN_RATINGS));
                }
                sort_players_by_rating(&mut out);
                Some(take_first(&out, n as usize))
            },
        }
    }
}

} // verus!
