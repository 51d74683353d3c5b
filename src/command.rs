//! The query commands: splitting a line into tokens, and reading the verb
//! and its arguments.
use vstd::prelude::*;
use vstd::string::{StrSliceExecFns, StringExecFns};
use crate::text::{lower_of, to_lower};

verus! {

/// A token is a single-quoted span, without its quotes, or a run of
/// characters other than white space.
pub const TOKEN_PATTERN: &'static str = "'([^']*)'|\\S+";

/// The matches of a regular expression over a text, left to right, each as
/// the text of its first group (if that group took part) and the text of the
/// whole match.
pub uninterp spec fn captures_of(pattern: Seq<char>, text: Seq<char>) -> Seq<(Option<Seq<char>>, Seq<char>)>;

pub open spec fn capture_view(c: (Option<String>, String)) -> (Option<Seq<char>>, Seq<char>) {
    (
        match c.0 {
            Some(g) => Some(g@),
            None => None,
        },
        c.1@,
    )
}

#[verifier::external_type_specification]
#[verifier::external_body]
pub struct ExRegexError(regex::Error);

/// Relies on `regex::Regex::new` and `Regex::captures_iter`: compiles
/// `pattern` and lists its matches over `text`, each with its first group
/// (`Captures::get(1)`) and the whole match (`Captures::get(0)`, always
/// present). The error of `Regex::new` when the pattern does not compile:
/// its documentation names an invalid pattern and one over the size limit,
/// neither of which the token pattern is.
#[verifier::external_body]
fn regex_captures(pattern: &str, text: &str) -> (r: Result<Vec<(Option<String>, String)>, regex::Error>)
    ensures
        r matches Ok(v) ==> v@.map_values(|c: (Option<String>, String)| capture_view(c))
            == captures_of(pattern@, text@),
        pattern@ == TOKEN_PATTERN@ ==> r is Ok,
{
    let re = regex::Regex::new(pattern)?;
    Ok(
        re.captures_iter(text).map(
            |c| (c.get(1).map(|m| m.as_str().to_string()), c[0].to_string()),
        ).collect(),
    )
}

/// The token of one match: its group when the group took part, else the
/// whole match.
pub open spec fn token_of(c: (Option<Seq<char>>, Seq<char>)) -> Seq<char> {
    match c.0 {
        Some(g) => g,
        None => c.1,
    }
}

/// The tokens of a list of matches.
pub fn tokens_from_captures(caps: Vec<(Option<String>, String)>) -> (r: Vec<String>)
    ensures
        r@.map_values(|s: String| s@) == caps@.map_values(
            |c: (Option<String>, String)| token_of(capture_view(c)),
        ),
{
    let ghost want = caps@.map_values(|c: (Option<String>, String)| token_of(capture_view(c)));
    let mut r: Vec<String> = Vec::new();
    let mut i: usize = 0;
    while i < caps.len()
        invariant
            want == caps@.map_values(|c: (Option<String>, String)| token_of(capture_view(c))),
            i <= caps@.len(),
            r@.map_values(|s: String| s@) == want.take(i as int),
        decreases caps@.len() - i,
    {
        let t = match &caps[i].0 {
            Some(g) => g.clone(),
            None => caps[i].1.clone(),
        };
        proof {
            assert(t@ == want[i as int]);
        }
        let ghost prev = r@;
        r.push(t);
        proof {
            assert(want.take(i + 1) == want.take(i as int).push(want[i as int]));
            assert(r@.map_values(|s: String| s@) =~= prev.map_values(|s: String| s@).push(t@));
        }
        i = i + 1;
    }
    proof {
        assert(want.take(i as int) == want);
    }
    r
}

/// The tokens of a command line: each single-quoted span without its quotes,
/// and each other run of non-blank characters.
pub fn parse_string(input: &str) -> (r: Vec<String>)
    ensures
        r@.map_values(|s: String| s@) == captures_of(TOKEN_PATTERN@, input@).map_values(
            |c: (Option<Seq<char>>, Seq<char>)| token_of(c),
        ),
{
    match regex_captures(TOKEN_PATTERN, input) {
        Ok(caps) => {
            let ghost v = caps@;
            let r = tokens_from_captures(caps);
            proof {
                let cv = v.map_values(|c: (Option<String>, String)| capture_view(c));
                assert(cv.map_values(|c: (Option<Seq<char>>, Seq<char>)| token_of(c)) =~= v.map_values(
                    |c: (Option<String>, String)| token_of(capture_view(c)),
                ));
            }
            r
        },
        Err(_) => {
            proof {
                assert(false);
            }
            Vec::new()
        },
    }
}

pub open spec fn is_quote(c: char) -> bool {
    c == '"' || c == '\''
}

/// `r` is `s` with every leading and trailing quote, single or double, removed.
pub open spec fn quotes_trimmed(s: Seq<char>, r: Seq<char>) -> bool {
    exists|a: int, b: int|
        0 <= a <= b <= s.len() && r == s.subrange(a, b) && (forall|k: int|
            0 <= k < a ==> is_quote(#[trigger] s[k])) && (forall|k: int|
            b <= k < s.len() ==> is_quote(#[trigger] s[k])) && (a < b ==> !is_quote(s[a])
            && !is_quote(s[b - 1]))
}

/// `s` without its leading and trailing quotes.
pub fn remove_outer_quotes(s: &str) -> (r: String)
    ensures
        quotes_trimmed(s@, r@),
{
    let n = s.unicode_len();
    let mut a: usize = 0;
    while a < n && (s.get_char(a) == '"' || s.get_char(a) == '\'')
        invariant
            n == s@.len(),
            a <= n,
            forall|k: int| 0 <= k < a ==> is_quote(#[trigger] s@[k]),
        decreases n - a,
    {
        a = a + 1;
    }
    let mut b: usize = n;
    while b > a && (s.get_char(b - 1) == '"' || s.get_char(b - 1) == '\'')
        invariant
            n == s@.len(),
            a <= b <= n,
            forall|k: int| b <= k < n ==> is_quote(#[trigger] s@[k]),
        decreases b,
    {
        b = b - 1;
    }
    let r = String::from_str(s.substring_char(a, b));
    proof {
        assert(a < b ==> !is_quote(s@[a as int]) && !is_quote(s@[b - 1]));
        assert(quotes_trimmed(s@, r@)) by {
            assert(0 <= a <= b <= s@.len() && r@ == s@.subrange(a as int, b as int));
        }
    }
    r
}

/// The value of a string of decimal digits.
pub open spec fn digits_value(d: Seq<char>) -> int
    decreases d.len(),
{
    if d.len() == 0 {
        0
    } else {
        digits_value(d.drop_last()) * 10 + (d.last() as u32 - '0' as u32)
    }
}

pub open spec fn is_digit(c: char) -> bool {
    '0' <= c <= '9'
}

/// The characters after an optional leading `+`.
pub open spec fn unsigned_part(s: Seq<char>) -> Seq<char> {
    if s.len() > 0 && s[0] == '+' {
        s.drop_first()
    } else {
        s
    }
}

pub open spec fn all_digits(d: Seq<char>) -> bool {
    forall|k: int| 0 <= k < d.len() ==> is_digit(#[trigger] d[k])
}

/// An unsigned 32-bit number written in decimal, with an optional leading
/// `+`: the form the standard library accepts.
pub open spec fn u32_of(s: Seq<char>) -> Option<u32> {
    let d = unsigned_part(s);
    if d.len() > 0 && all_digits(d) && digits_value(d) <= u32::MAX {
        Some(digits_value(d) as u32)
    } else {
        None
    }
}

/// Reads an unsigned 32-bit number in decimal; `None` when `s` is not one
/// or it does not fit.
pub fn parse_u32(s: &Vec<char>) -> (r: Option<u32>)
    ensures
        r == u32_of(s@),
{
    let n = s.len();
    let mut i: usize = 0;
    if n > 0 && s[0] == '+' {
        i = 1;
    }
    let ghost d = unsigned_part(s@);
    let start = i;
    if start == n {
        return None;
    }
    let mut value: u64 = 0;
    while i < n
        invariant
            n == s@.len(),
            start <= i <= n,
            start == s@.len() - d.len(),
            d == s@.subrange(start as int, n as int),
            d == unsigned_part(s@),
            forall|k: int| 0 <= k < i - start ==> is_digit(#[trigger] d[k]),
            value == digits_value(d.take(i - start)),
            value <= u32::MAX,
        decreases n - i,
    {
        let c = s[i];
        if !('0' <= c && c <= '9') {
            proof {
                assert(!is_digit(d[i - start]));

            }
            return None;
        }
        proof {
            assert(d.take(i - start + 1).drop_last() == d.take(i - start));
            assert(d.take(i - start + 1).last() == c);
        }
        value = value * 10 + (c as u64 - '0' as u64);
        if value > 0xffff_ffff {
            proof {
                if all_digits(d) {
                    lemma_digits_value_grows(d, (i - start + 1) as int);
                }
            }
            return None;
        }
        i = i + 1;
    }
    proof {
        assert(d.take(i - start) == d);
    }
    Some(value as u32)
}

proof fn lemma_digits_value_nonneg(d: Seq<char>)
    requires
        forall|j: int| 0 <= j < d.len() ==> is_digit(#[trigger] d[j]),
    ensures
        digits_value(d) >= 0,
    decreases d.len(),
{
    if d.len() > 0 {
        lemma_digits_value_nonneg(d.drop_last());
    }
}

/// Reading more digits never makes the value smaller.
proof fn lemma_digits_value_grows(d: Seq<char>, k: int)
    requires
        0 <= k <= d.len(),
        forall|j: int| 0 <= j < d.len() ==> is_digit(#[trigger] d[j]),
    ensures
        digits_value(d.take(k)) <= digits_value(d),
    decreases d.len() - k,
{
    if k < d.len() {
        lemma_digits_value_grows(d, k + 1);
        assert(d.take(k + 1).drop_last() == d.take(k));
        lemma_digits_value_nonneg(d.take(k));
    } else {
        assert(d.take(k) == d);
    }
}

/// `ws` joined with single spaces.
pub open spec fn join_words(ws: Seq<Seq<char>>) -> Seq<char>
    decreases ws.len(),
{
    if ws.len() == 0 {
        Seq::<char>::empty()
    } else if ws.len() == 1 {
        ws[0]
    } else {
        join_words(ws.drop_last()) + seq![' '] + ws.last()
    }
}

/// `v` starts with the letters `top`.
pub open spec fn starts_with_top(v: Seq<char>) -> bool {
    v.len() >= 3 && v[0] == 't' && v[1] == 'o' && v[2] == 'p'
}

/// A command read from the tokens of one line.
#[derive(Debug)]
pub enum Command {
    /// Players whose long name starts with the text.
    Player(String),
    /// The ranking of a user.
    User(u32),
    /// `user` with an id that is not a number.
    InvalidUserId,
    /// Players that carry every tag.
    Tags(Vec<String>),
    /// The first players at a position.
    Top(u32, String),
    /// `top` followed by something that is not a number.
    InvalidTop,
    /// Fewer than two tokens.
    Insufficient,
    /// An unknown verb.
    Invalid,
}

/// The tokens from `from` on, joined with single spaces.
fn join_from(tokens: &Vec<String>, from: usize) -> (r: String)
    requires
        from < tokens@.len(),
    ensures
        r@ == join_words(tokens@.map_values(|s: String| s@).skip(from as int)),
{
    let ghost ts = tokens@.map_values(|s: String| s@);
    let n = tokens.len();
    let mut r = tokens[from].clone();
    let mut k: usize = from + 1;
    proof {
        assert(ts.skip(from as int).take(1) =~= seq![ts[from as int]]);
    }
    while k < tokens.len()
        invariant
            ts == tokens@.map_values(|s: String| s@),
            from < k <= tokens@.len(),
            r@ == join_words(ts.skip(from as int).take(k - from)),
        decreases tokens@.len() - k,
    {
        r.append(" ");
        r.append(tokens[k].as_str());
        proof {
            let w = ts.skip(from as int).take(k - from + 1);
            assert(w.drop_last() == ts.skip(from as int).take(k - from));
            assert(w.last() == tokens@[k as int]@);
            assert(" "@ == seq![' ']) by {
                reveal_strlit(" ");
            }
        }
        k = k + 1;
    }
    proof {
        assert(ts.skip(from as int).take(k - from) == ts.skip(from as int));
    }
    r
}

/// The characters of `v` from `k` on.
fn chars_from(v: &Vec<char>, k: usize) -> (r: Vec<char>)
    requires
        k <= v@.len(),
    ensures
        r@ == v@.skip(k as int),
{
    let mut r: Vec<char> = Vec::new();
    let mut i: usize = k;
    while i < v.len()
        invariant
            k <= i <= v@.len(),
            r@ == v@.subrange(k as int, i as int),
        decreases v@.len() - i,
    {
        r.push(v[i]);
        proof {
            assert(r@ == v@.subrange(k as int, i + 1));
        }
        i = i + 1;
    }
    r
}

/// Reads the command of a line's tokens: the verb (in any case) and its
/// arguments, each without its outer quotes. `player` takes the rest of the
/// line as one text; `top<n>` takes its count from the verb.
pub fn parse_command(tokens: &Vec<String>) -> (r: Command)
    ensures
        ({
            let ts = tokens@.map_values(|s: String| s@);
            let verb = lower_of(ts[0]);
            let known = verb == "player"@ || verb == "user"@ || verb == "tags"@;
            match r {
                Command::Insufficient => ts.len() < 2,
                Command::Player(p) => ts.len() >= 2 && verb == "player"@ && quotes_trimmed(
                    join_words(ts.skip(1)),
                    p@,
                ),
                Command::User(id) => ts.len() >= 2 && verb == "user"@ && exists|q: Seq<char>|
                    quotes_trimmed(ts[1], q) && u32_of(q) == Some(id),
                Command::InvalidUserId => ts.len() >= 2 && verb == "user"@ && exists|q: Seq<char>|
                    quotes_trimmed(ts[1], q) && u32_of(q) is None,
                Command::Tags(v) => ts.len() >= 2 && verb == "tags"@ && v@.len() == ts.len() - 1
                    && forall|k: int| 0 <= k < v@.len() ==> quotes_trimmed(ts[k + 1], #[trigger] v@[k]@),
                Command::Top(n, pos) => ts.len() >= 2 && !known && starts_with_top(verb) && u32_of(
                    verb.skip(3),
                ) == Some(n) && quotes_trimmed(ts[1], pos@),
                Command::InvalidTop => ts.len() >= 2 && !known && starts_with_top(verb) && u32_of(
                    verb.skip(3),
                ) is None,
                Command::Invalid => ts.len() >= 2 && !known && !starts_with_top(verb),
            }
        }),
{
    let ghost ts = tokens@.map_values(|s: String| s@);
    if tokens.len() < 2 {
        return Command::Insufficient;
    }
    let verb = to_lower(tokens[0].as_str());
    if verb == String::from_str("player") {
        let text = join_from(tokens, 1);
        return Command::Player(remove_outer_quotes(text.as_str()));
    }
    if verb == String::from_str("user") {
        let arg = remove_outer_quotes(tokens[1].as_str());
        let digits = crate::text::chars_of(arg.as_str());
        proof {
            assert(ts[1] == tokens@[1]@);
            assert(quotes_trimmed(ts[1], arg@));
        }
        return match parse_u32(&digits) {
            Some(id) => Command::User(id),
            None => Command::InvalidUserId,
        };
    }
    if verb == String::from_str("tags") {
        let mut list: Vec<String> = Vec::new();
        let mut k: usize = 1;
        while k < tokens.len()
            invariant
                ts == tokens@.map_values(|s: String| s@),
                1 <= k <= tokens@.len(),
                list@.len() == k - 1,
                forall|j: int| 0 <= j < list@.len() ==> quotes_trimmed(ts[j + 1], #[trigger] list@[j]@),
            decreases tokens@.len() - k,
        {
            list.push(remove_outer_quotes(tokens[k].as_str()));
            k = k + 1;
        }
        return Command::Tags(list);
    }
    let vc = crate::text::chars_of(verb.as_str());
    if vc.len() >= 3 && vc[0] == 't' && vc[1] == 'o' && vc[2] == 'p' {
        let number = chars_from(&vc, 3);
        match parse_u32(&number) {
            Some(n) => Command::Top(n, remove_outer_quotes(tokens[1].as_str())),
            None => Command::InvalidTop,
        }
    } else {
        Command::Invalid
    }
}

} // verus!
