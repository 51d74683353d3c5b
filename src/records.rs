//! The rows that ingestion hands to the index.
use vstd::prelude::*;
use crate::hash_table::Identifiable;
use crate::ranking::{AddRating, RatingPlayer};
use crate::text::push_char;
use vstd::string::StrSliceExecFns;

verus! {

/// One player: immutable once ingested.
#[derive(Clone, Debug)]
pub struct Player {
    pub sofifa_id: u32,
    pub short_name: String,
    pub long_name: String,
    /// Comma-separated positions, perhaps with spaces around them.
    pub player_positions: String,
    pub nationality: String,
    pub club_name: String,
    pub league_name: String,
}

/// One rating event: `rating` is in the integer unit chosen for ratings.
#[derive(Clone, Copy, Debug, PartialEq, Eq, Structural)]
pub struct RatingFile {
    pub user_id: u32,
    pub sofifa_id: u32,
    pub rating: u32,
}

/// One tag that a user put on a player.
#[derive(Clone, Debug)]
pub struct Tags {
    pub user_id: u32,
    pub sofifa_id: u32,
    pub tag: String,
}

/// A user's own accumulators, one per rating event, in arrival order.
#[derive(Clone, Debug)]
pub struct User {
    pub user_id: u32,
    pub ratings: Vec<RatingPlayer>,
}

impl Identifiable for Player {
    open spec fn spec_id(&self) -> u32 {
        self.sofifa_id
    }

    fn id(&self) -> (r: u32) {
        self.sofifa_id
    }
}

impl Identifiable for User {
    open spec fn spec_id(&self) -> u32 {
        self.user_id
    }

    fn id(&self) -> (r: u32) {
        self.user_id
    }
}

impl Identifiable for RatingFile {
    open spec fn spec_id(&self) -> u32 {
        self.sofifa_id
    }

    fn id(&self) -> (r: u32) {
        self.sofifa_id
    }
}

impl AddRating<RatingPlayer> for User {
    open spec fn can_add(&self, rating: RatingPlayer) -> bool {
        true
    }

    open spec fn added(&self, rating: RatingPlayer, after: Self) -> bool {
        after.user_id == self.user_id && after.ratings@ == self.ratings@.push(rating)
    }

    fn add_rating(&mut self, rating: RatingPlayer) {
        self.ratings.push(rating);
    }
}

/// Characters dropped from a position name.
pub open spec fn is_blank(c: char) -> bool {
    c == ' ' || c == '\t' || c == '\n' || c == '\r'
}

/// `s` cut at each comma.
pub open spec fn split_commas(s: Seq<char>) -> Seq<Seq<char>>
    decreases s.len(),
{
    if s.len() == 0 {
        seq![Seq::<char>::empty()]
    } else {
        let prev = split_commas(s.drop_last());
        if s.last() == ',' {
            prev.push(Seq::<char>::empty())
        } else {
            prev.update(prev.len() - 1, prev.last().push(s.last()))
        }
    }
}

/// `p` without its blanks.
pub open spec fn strip_blanks(p: Seq<char>) -> Seq<char> {
    p.filter(|c: char| !is_blank(c))
}

/// The position names of a `player_positions` field.
pub open spec fn positions_of(s: Seq<char>) -> Seq<Seq<char>> {
    split_commas(s).map_values(|p: Seq<char>| strip_blanks(p))
}

proof fn lemma_split_commas_len(s: Seq<char>)
    ensures
        split_commas(s).len() >= 1,
    decreases s.len(),
{
    if s.len() > 0 {
        lemma_split_commas_len(s.drop_last());
    }
}

/// The position names in `field`, each without blanks.
pub fn split_positions(field: &str) -> (r: Vec<String>)
    ensures
        r@.map_values(|p: String| p@) == positions_of(field@),
{
    let n = field.unicode_len();
    let mut done: Vec<String> = Vec::new();
    let mut cur = String::new();
    let mut i: usize = 0;
    proof {
        reveal(Seq::filter);
        assert(field@.take(0) =~= Seq::<char>::empty());
        assert(strip_blanks(Seq::<char>::empty()) =~= Seq::<char>::empty());
        assert(done@.map_values(|p: String| p@).push(cur@) =~= positions_of(field@.take(0)));
    }
    while i < n
        invariant
            n == field@.len(),
            i <= n,
            done@.map_values(|p: String| p@).push(cur@) == positions_of(field@.take(i as int)),
        decreases n - i,
    {
        let c = field.get_char(i);
        let ghost s = field@.take(i + 1);
        proof {
            assert(s.drop_last() == field@.take(i as int));
            assert(s.last() == c);
            lemma_split_commas_len(field@.take(i as int));
        }
        let ghost prev = split_commas(field@.take(i as int));
        let ghost old_done = done@;
        let ghost old_cur = cur@;
        if c == ',' {
            done.push(cur);
            cur = String::new();
            proof {
                reveal(Seq::filter);
                assert(strip_blanks(Seq::<char>::empty()) =~= Seq::<char>::empty());
                assert(split_commas(s) == prev.push(Seq::<char>::empty()));
                assert(done@.map_values(|p: String| p@) =~= old_done.map_values(|p: String| p@).push(old_cur));
                assert(positions_of(s) =~= positions_of(field@.take(i as int)).push(Seq::<char>::empty()));
                assert(done@.map_values(|p: String| p@).push(cur@) =~= positions_of(s));
            }
        } else {
            let ghost piece = split_commas(field@.take(i as int)).last();
            proof {
                assert(strip_blanks(piece.push(c)) == if is_blank(c) {
                    strip_blanks(piece)
                } else {
                    strip_blanks(piece).push(c)
                }) by {
                    piece.lemma_filter_push(c, |c: char| !is_blank(c));
                }
            }
            if !(c == ' ' || c == '\t' || c == '\n' || c == '\r') {
                push_char(&mut cur, c);
            }
            proof {
                let last = prev.len() - 1;
                let v = old_done.map_values(|p: String| p@).push(old_cur);
                assert(v.len() == old_done.len() + 1);
                assert(v[old_done.len() as int] == old_cur);
                assert(positions_of(field@.take(i as int)).len() == prev.len());
                assert(split_commas(s) == prev.update(last, piece.push(c)));
                assert(old_cur == positions_of(field@.take(i as int))[last]);
                assert(positions_of(s) =~= positions_of(field@.take(i as int)).update(last, strip_blanks(piece.push(c))));
                assert(done@.map_values(|p: String| p@).push(cur@) =~= positions_of(s));
            }
        }
        i = i + 1;
    }
    proof {
        assert(field@.take(n as int) == field@);
    }
    done.push(cur);
    proof {
        assert(done@.map_values(|p: String| p@) =~= positions_of(field@));
    }
    done
}

} // verus!
