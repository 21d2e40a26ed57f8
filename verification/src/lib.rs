//! A verified dice-roll engine: parses tabletop expressions such as
//! `2d6+2!5` into an [`Expression`] and executes them against a random
//! source, with advantage/disadvantage windowing and die explosion. Every
//! function carries a contract; only the draws from the generator itself are
//! taken on trust.

pub mod digits;
pub mod error;
pub mod output;
pub mod roller;
pub mod sorting;

pub use error::{IntErrorKind, ParseExpressionError};
pub use output::ExpressionResult;
pub use roller::Roller;

use crate::digits::{parse_i32, parse_i32_spec, parse_usize, parse_usize_spec};
use crate::sorting::{lemma_multiset_range, sort_ascending, sort_descending, sorted_desc};
use vstd::prelude::*;

verus! {

/// A parsed dice-roll expression.
#[derive(Clone, Debug, Default, Eq, PartialEq)]
pub struct Expression {
    /// The number of dice to be rolled.
    pub num: usize,
    /// The maximum value of the dice being rolled.
    pub max: usize,
    /// Advantage or disadvantage modifier: positive means that many extra dice
    /// are rolled and the highest are kept; negative keeps the lowest.
    pub modifier: i32,
    /// Explosion threshold: a die at or above it rolls one extra die, and the
    /// extra die keeps exploding while it also meets the threshold.
    pub threshold: Option<usize>,
}

/// The absolute value of a 32-bit modifier, as a mathematical integer.
pub open spec fn abs_i32(m: i32) -> int {
    if m >= 0 {
        m as int
    } else {
        -(m as int)
    }
}

/// Recognizes the explosion marker.
pub open spec fn bang_pred() -> spec_fn(char) -> bool {
    |c: char| c == '!'
}

/// Recognizes the sign that starts a modifier suffix.
pub open spec fn sign_pred() -> spec_fn(char) -> bool {
    |c: char| c == '+' || c == '-'
}

/// Recognizes the delimiter between dice count and faces.
pub open spec fn delim_pred() -> spec_fn(char) -> bool {
    |c: char| c == 'd' || c == 'D'
}

/// The last position whose character satisfies `p`, if any.
pub open spec fn last_where(s: Seq<char>, p: spec_fn(char) -> bool) -> Option<int>
    decreases s.len(),
{
    if s.len() == 0 {
        None
    } else if p(s.last()) {
        Some(s.len() - 1)
    } else {
        last_where(s.drop_last(), p)
    }
}

/// The first position whose character satisfies `p`, if any.
pub open spec fn first_where(s: Seq<char>, p: spec_fn(char) -> bool) -> Option<int>
    decreases s.len(),
{
    if s.len() == 0 {
        None
    } else if p(s[0]) {
        Some(0)
    } else {
        match first_where(s.drop_first(), p) {
            Some(i) => Some(i + 1),
            None => None,
        }
    }
}

/// What `last_where` finds: a match with nothing matching after it, or no
/// match anywhere.
pub proof fn lemma_last_where(s: Seq<char>, p: spec_fn(char) -> bool)
    ensures
        match last_where(s, p) {
            Some(i) => 0 <= i < s.len() && p(s[i]) && forall|j: int|
                i < j < s.len() ==> !p(#[trigger] s[j]),
            None => forall|j: int| 0 <= j < s.len() ==> !p(#[trigger] s[j]),
        },
    decreases s.len(),
{
    if s.len() > 0 && !p(s.last()) {
        lemma_last_where(s.drop_last(), p);
        assert(forall|j: int| 0 <= j < s.len() - 1 ==> s.drop_last()[j] == #[trigger] s[j]);
    }
}

/// What `first_where` finds: a match with nothing matching before it, or no
/// match anywhere.
pub proof fn lemma_first_where(s: Seq<char>, p: spec_fn(char) -> bool)
    ensures
        match first_where(s, p) {
            Some(i) => 0 <= i < s.len() && p(s[i]) && forall|j: int|
                0 <= j < i ==> !p(#[trigger] s[j]),
            None => forall|j: int| 0 <= j < s.len() ==> !p(#[trigger] s[j]),
        },
    decreases s.len(),
{
    if s.len() > 0 && !p(s[0]) {
        let t = s.drop_first();
        lemma_first_where(t, p);
        match first_where(s, p) {
            Some(i) => {
                assert(t[i - 1] == s[i]);
                assert forall|j: int| 0 <= j < i implies !p(#[trigger] s[j]) by {
                    if j > 0 {
                        assert(s[j] == t[j - 1]);
                    }
                }
            },
            None => {
                assert forall|j: int| 0 <= j < s.len() implies !p(#[trigger] s[j]) by {
                    if j > 0 {
                        assert(s[j] == t[j - 1]);
                    }
                }
            },
        }
    }
}

/// What reading the threshold suffix yields: the text after the last `!`
/// parsed as a number (a bare `!` stands for the sentinel 0), and the text
/// before it, to be read on.
pub open spec fn spec_read_threshold(s: Seq<char>) -> Result<
    (Option<usize>, Seq<char>),
    ParseExpressionError,
> {
    match last_where(s, bang_pred()) {
        None => Ok((None, s)),
        Some(i) => {
            if i + 1 == s.len() {
                Ok((Some(0usize), s.take(i)))
            } else {
                match parse_usize_spec(s.skip(i + 1)) {
                    Ok(v) => Ok((Some(v as usize), s.take(i))),
                    Err(e) => Err(ParseExpressionError::Int(e)),
                }
            }
        },
    }
}

/// What reading the modifier suffix yields: from the last `+` or `-` on,
/// parsed as a signed number, and the text before it.
pub open spec fn spec_read_modifier(s: Seq<char>) -> Result<
    (Option<i32>, Seq<char>),
    ParseExpressionError,
> {
    match last_where(s, sign_pred()) {
        None => Ok((None, s)),
        Some(i) => match parse_i32_spec(s.skip(i)) {
            Ok(v) => Ok((Some(v as i32), s.take(i))),
            Err(e) => Err(ParseExpressionError::Int(e)),
        },
    }
}

/// What reading the dice-segment core yields: `L d R` as count and faces, or a
/// bare number as one die with that many faces. An empty left piece, an
/// unparsable number, or a second delimiter each end the parse.
pub open spec fn spec_read_segments(s: Seq<char>) -> Result<
    (usize, usize),
    ParseExpressionError,
> {
    match first_where(s, delim_pred()) {
        None => {
            if s.len() == 0 {
                Err(ParseExpressionError::Empty)
            } else {
                match parse_usize_spec(s) {
                    Ok(v) => Ok((1usize, v as usize)),
                    Err(e) => Err(ParseExpressionError::Int(e)),
                }
            }
        },
        Some(i) => {
            if i == 0 {
                Err(ParseExpressionError::Empty)
            } else {
                match parse_usize_spec(s.take(i)) {
                    Err(e) => Err(ParseExpressionError::Int(e)),
                    Ok(l) => {
                        if first_where(s.skip(i + 1), delim_pred()) is Some {
                            Err(ParseExpressionError::TooManySegments)
                        } else {
                            match parse_usize_spec(s.skip(i + 1)) {
                                Ok(r) => Ok((l as usize, r as usize)),
                                Err(e) => Err(ParseExpressionError::Int(e)),
                            }
                        }
                    },
                }
            }
        },
    }
}

/// What parsing a whole expression yields: threshold suffix, then modifier
/// suffix, then the dice-segment core, with a threshold of 0 resolved to the
/// number of faces.
pub open spec fn parse_spec(s: Seq<char>) -> Result<Expression, ParseExpressionError> {
    match spec_read_threshold(s) {
        Err(e) => Err(e),
        Ok((threshold, rest1)) => match spec_read_modifier(rest1) {
            Err(e) => Err(e),
            Ok((modifier, rest2)) => match spec_read_segments(rest2) {
                Err(e) => Err(e),
                Ok((num, max)) => Ok(
                    Expression {
                        num,
                        max,
                        modifier: match modifier {
                            None => 0,
                            Some(m) => m,
                        },
                        threshold: match threshold {
                            None => None,
                            Some(t) => Some(
                                if t == 0 {
                                    max
                                } else {
                                    t
                                },
                            ),
                        },
                    },
                ),
            },
        },
    }
}

/// Finds the last `!` in the text.
fn rfind_bang(s: &str) -> (r: Option<usize>)
    ensures
        match r {
            Some(i) => i < s@.len() && last_where(s@, bang_pred()) == Some(i as int),
            None => last_where(s@, bang_pred()) is None,
        },
{
    let n = s.unicode_len();
    let mut i = n;
    proof {
        lemma_last_where(s@, bang_pred());
    }
    while i > 0
        invariant
            i <= n,
            n == s@.len(),
            forall|j: int| i <= j < n ==> !bang_pred()(#[trigger] s@[j]),
            match last_where(s@, bang_pred()) {
                Some(k) => 0 <= k < n && bang_pred()(s@[k]) && forall|j: int|
                    k < j < n ==> !bang_pred()(#[trigger] s@[j]),
                None => forall|j: int| 0 <= j < n ==> !bang_pred()(#[trigger] s@[j]),
            },
        decreases i,
    {
        i = i - 1;
        let c = s.get_char(i);
        if c == '!' {
            return Some(i);
        }
    }
    None
}

/// Finds the last `+` or `-` in the text.
fn rfind_sign(s: &str) -> (r: Option<usize>)
    ensures
        match r {
            Some(i) => i < s@.len() && last_where(s@, sign_pred()) == Some(i as int),
            None => last_where(s@, sign_pred()) is None,
        },
{
    let n = s.unicode_len();
    let mut i = n;
    proof {
        lemma_last_where(s@, sign_pred());
    }
    while i > 0
        invariant
            i <= n,
            n == s@.len(),
            forall|j: int| i <= j < n ==> !sign_pred()(#[trigger] s@[j]),
            match last_where(s@, sign_pred()) {
                Some(k) => 0 <= k < n && sign_pred()(s@[k]) && forall|j: int|
                    k < j < n ==> !sign_pred()(#[trigger] s@[j]),
                None => forall|j: int| 0 <= j < n ==> !sign_pred()(#[trigger] s@[j]),
            },
        decreases i,
    {
        i = i - 1;
        let c = s.get_char(i);
        if c == '+' || c == '-' {
            return Some(i);
        }
    }
    None
}

/// Finds the first `d` or `D` in the text.
fn find_delim(s: &str) -> (r: Option<usize>)
    ensures
        match r {
            Some(i) => i < s@.len() && first_where(s@, delim_pred()) == Some(i as int),
            None => first_where(s@, delim_pred()) is None,
        },
{
    let n = s.unicode_len();
    let mut i: usize = 0;
    proof {
        lemma_first_where(s@, delim_pred());
    }
    while i < n
        invariant
            i <= n,
            n == s@.len(),
            forall|j: int| 0 <= j < i ==> !delim_pred()(#[trigger] s@[j]),
            match first_where(s@, delim_pred()) {
                Some(k) => 0 <= k < n && delim_pred()(s@[k]) && forall|j: int|
                    0 <= j < k ==> !delim_pred()(#[trigger] s@[j]),
                None => forall|j: int| 0 <= j < n ==> !delim_pred()(#[trigger] s@[j]),
            },
        decreases n - i,
    {
        let c = s.get_char(i);
        if c == 'd' || c == 'D' {
            return Some(i);
        }
        i = i + 1;
    }
    None
}

/// Reads the optional threshold suffix: everything after the last `!` is the
/// threshold, a bare `!` stands for the sentinel 0, and the text before the
/// `!` is handed on.
pub fn read_threshold(s: &str) -> (r: Result<(Option<usize>, &str), ParseExpressionError>)
    ensures
        ({
            let spec = spec_read_threshold(s@);
            match r {
                Ok(p) => spec matches Ok(sp) && p.0 == sp.0 && p.1@ == sp.1,
                Err(e) => spec == Err::<(Option<usize>, Seq<char>), ParseExpressionError>(e),
            }
        }),
{
    match rfind_bang(s) {
        None => Ok((None, s)),
        Some(i) => {
            let n = s.unicode_len();
            let prefix = s.substring_char(0, i);
            if i + 1 == n {
                Ok((Some(0), prefix))
            } else {
                let tail = s.substring_char(i + 1, n);
                match parse_usize(tail) {
                    Ok(v) => Ok((Some(v), prefix)),
                    Err(e) => Err(ParseExpressionError::Int(e)),
                }
            }
        },
    }
}

/// Reads the optional modifier suffix: from the last `+` or `-` to the end,
/// sign included, parsed as a signed number; the text before it is handed on.
pub fn read_modifier(s: &str) -> (r: Result<(Option<i32>, &str), ParseExpressionError>)
    ensures
        ({
            let spec = spec_read_modifier(s@);
            match r {
                Ok(p) => spec matches Ok(sp) && p.0 == sp.0 && p.1@ == sp.1,
                Err(e) => spec == Err::<(Option<i32>, Seq<char>), ParseExpressionError>(e),
            }
        }),
{
    match rfind_sign(s) {
        None => Ok((None, s)),
        Some(i) => {
            let n = s.unicode_len();
            let tail = s.substring_char(i, n);
            match parse_i32(tail) {
                Ok(v) => Ok((Some(v), s.substring_char(0, i))),
                Err(e) => Err(ParseExpressionError::Int(e)),
            }
        },
    }
}

/// Reads the dice-segment core: `L d R` gives count and faces, a bare number
/// is one die with that many faces.
pub fn read_segments(s: &str) -> (r: Result<(usize, usize), ParseExpressionError>)
    ensures
        ({
            let spec = spec_read_segments(s@);
            match r {
                Ok(p) => spec == Ok::<(usize, usize), ParseExpressionError>(p),
                Err(e) => spec == Err::<(usize, usize), ParseExpressionError>(e),
            }
        }),
{
    match find_delim(s) {
        None => {
            if s.unicode_len() == 0 {
                Err(ParseExpressionError::Empty)
            } else {
                match parse_usize(s) {
                    Ok(v) => Ok((1, v)),
                    Err(e) => Err(ParseExpressionError::Int(e)),
                }
            }
        },
        Some(i) => {
            if i == 0 {
                return Err(ParseExpressionError::Empty);
            }
            let n = s.unicode_len();
            let left = s.substring_char(0, i);
            let right = s.substring_char(i + 1, n);
            match parse_usize(left) {
                Err(e) => Err(ParseExpressionError::Int(e)),
                Ok(l) => match find_delim(right) {
                    Some(_) => Err(ParseExpressionError::TooManySegments),
                    None => match parse_usize(right) {
                        Ok(v) => Ok((l, v)),
                        Err(e) => Err(ParseExpressionError::Int(e)),
                    },
                },
            }
        },
    }
}

impl Expression {
    /// Parses a dice expression: an optional threshold suffix after `!`, an
    /// optional signed modifier suffix, and the dice-segment core, right to
    /// left.
    pub fn parse(s: &str) -> (r: Result<Expression, ParseExpressionError>)
        ensures
            r == parse_spec(s@),
    {
        let (threshold, s1) = match read_threshold(s) {
            Ok(p) => p,
            Err(e) => {
                return Err(e);
            },
        };
        let (modifier, s2) = match read_modifier(s1) {
            Ok(p) => p,
            Err(e) => {
                return Err(e);
            },
        };
        let (num, max) = match read_segments(s2) {
            Ok(p) => p,
            Err(e) => {
                return Err(e);
            },
        };
        let modifier: i32 = match modifier {
            None => 0,
            Some(m) => m,
        };
        let threshold: Option<usize> = match threshold {
            None => None,
            Some(t) => Some(
                if t == 0 {
                    max
                } else {
                    t
                },
            ),
        };
        Ok(Expression { num, max, modifier, threshold })
    }
}

impl core::str::FromStr for Expression {
    type Err = ParseExpressionError;

    fn from_str(s: &str) -> Result<Expression, ParseExpressionError> {
        Expression::parse(s)
    }
}

/// How many values of a sequence meet or exceed a threshold.
pub open spec fn count_ge(s: Seq<usize>, t: usize) -> int
    decreases s.len(),
{
    if s.len() == 0 {
        0
    } else {
        count_ge(s.drop_last(), t) + (if s.last() >= t {
            1int
        } else {
            0int
        })
    }
}

/// The count of values at or above a threshold never exceeds the length.
pub proof fn lemma_count_ge_bounds(s: Seq<usize>, t: usize)
    ensures
        0 <= count_ge(s, t) <= s.len(),
    decreases s.len(),
{
    if s.len() > 0 {
        lemma_count_ge_bounds(s.drop_last(), t);
    }
}

/// Taking one value out of a sequence takes exactly its contribution out of
/// the count.
pub proof fn lemma_count_ge_remove(s: Seq<usize>, t: usize, i: int)
    requires
        0 <= i < s.len(),
    ensures
        count_ge(s, t) == count_ge(s.remove(i), t) + (if s[i] >= t {
            1int
        } else {
            0int
        }),
    decreases s.len(),
{
    if i == s.len() - 1 {
        assert(s.remove(i) =~= s.drop_last());
    } else {
        let u = s.drop_last();
        assert(s.remove(i).drop_last() =~= u.remove(i));
        assert(s.remove(i).last() == s.last());
        lemma_count_ge_remove(u, t, i);
    }
}

/// How many values meet the threshold does not depend on their order: any two
/// arrangements of the same values have the same count.
pub proof fn lemma_count_ge_permutation(s1: Seq<usize>, s2: Seq<usize>, t: usize)
    requires
        s1.to_multiset() == s2.to_multiset(),
    ensures
        count_ge(s1, t) == count_ge(s2, t),
    decreases s1.len(),
{
    s1.to_multiset_ensures();
    s2.to_multiset_ensures();
    if s1.len() == 0 {
        assert(s2.len() == 0);
    } else {
        let x = s1.last();
        assert(s1.contains(x));
        assert(s1.to_multiset().count(x) > 0);
        assert(s2.contains(x));
        let j = choose|j: int| 0 <= j < s2.len() && s2[j] == x;
        assert(s1.drop_last() =~= s1.remove(s1.len() - 1));
        lemma_count_ge_remove(s2, t, j);
        lemma_count_ge_permutation(s1.drop_last(), s2.remove(j), t);
    }
}

/// Counting at or above a threshold distributes over concatenation.
pub proof fn lemma_count_ge_concat(a: Seq<usize>, b: Seq<usize>, t: usize)
    ensures
        count_ge(a + b, t) == count_ge(a, t) + count_ge(b, t),
    decreases b.len(),
{
    if b.len() == 0 {
        assert(a + b =~= a);
    } else {
        assert((a + b).drop_last() =~= a + b.drop_last());
        lemma_count_ge_concat(a, b.drop_last(), t);
    }
}

/// In a sequence whose values all meet the threshold, all of them count.
pub proof fn lemma_count_ge_all(s: Seq<usize>, t: usize)
    requires
        forall|i: int| 0 <= i < s.len() ==> #[trigger] s[i] >= t,
    ensures
        count_ge(s, t) == s.len(),
    decreases s.len(),
{
    if s.len() > 0 {
        lemma_count_ge_all(s.drop_last(), t);
    }
}

/// An explosion chain obeys the threshold law: every die at or above the
/// threshold spawned exactly one further die, so a chain that ended below the
/// threshold holds exactly one more die than it holds qualifying values.
pub proof fn lemma_count_ge_chain(s: Seq<usize>, t: usize)
    requires
        s.len() >= 1,
        forall|i: int| 0 <= i < s.len() - 1 ==> #[trigger] s[i] >= t,
        s[s.len() - 1] < t,
    ensures
        count_ge(s, t) == s.len() - 1,
{
    lemma_count_ge_all(s.drop_last(), t);
}

/// Counts how many values of the vector meet or exceed the threshold: the
/// dice that are owed an explosion.
fn count_at_or_above(v: &Vec<usize>, t: usize) -> (r: usize)
    ensures
        r == count_ge(v@, t),
        r <= v@.len(),
{
    let mut r: usize = 0;
    let mut i: usize = 0;
    proof {
        assert(v@.take(0) =~= Seq::<usize>::empty());
    }
    while i < v.len()
        invariant
            i <= v@.len(),
            r <= i,
            r == count_ge(v@.take(i as int), t),
        decreases v@.len() - i,
    {
        proof {
            assert(v@.take(i + 1).drop_last() =~= v@.take(i as int));
            assert(v@.take(i + 1).last() == v@[i as int]);
        }
        if v[i] >= t {
            r = r + 1;
        }
        i = i + 1;
    }
    proof {
        assert(v@.take(v@.len() as int) =~= v@);
    }
    r
}

/// The magnitude of a modifier as a dice count.
fn mod_abs(m: i32) -> (r: usize)
    requires
        abs_i32(m) <= usize::MAX,
    ensures
        r == abs_i32(m),
{
    if m >= 0 {
        m as usize
    } else if m == i32::MIN {
        2147483648
    } else {
        (-m) as usize
    }
}

impl Expression {
    /// The threshold an execution actually applies: the expression's own, or
    /// one below the number of faces for every roll when the destructive
    /// trance toggle is on.
    pub open spec fn effective_threshold(&self, trance: bool) -> Option<usize> {
        if trance {
            Some((self.max - 1) as usize)
        } else {
            self.threshold
        }
    }

    /// How many dice are sampled before windowing: the requested count plus
    /// one extra die per point of advantage or disadvantage.
    pub fn total_dice(&self) -> (r: usize)
        requires
            self.num + abs_i32(self.modifier) <= usize::MAX,
        ensures
            r == self.num + abs_i32(self.modifier),
    {
        self.num + mod_abs(self.modifier)
    }

    /// Keeps the requested number of dice out of the sorted sample pool:
    /// advantage drops the lowest values, disadvantage drops the highest.
    pub fn apply_modifier_window(&self, values: &Vec<usize>) -> (r: Vec<usize>)
        requires
            values@.len() == self.num + abs_i32(self.modifier),
        ensures
            self.modifier == 0 ==> r@ == values@,
            self.modifier > 0 ==> r@ == values@.subrange(
                self.modifier as int,
                values@.len() as int,
            ),
            self.modifier < 0 ==> r@ == values@.subrange(
                0,
                values@.len() - abs_i32(self.modifier),
            ),
            r@.len() == self.num,
    {
        let start: usize = if self.modifier > 0 {
            mod_abs(self.modifier)
        } else {
            0
        };
        let end: usize = if self.modifier < 0 {
            values.len() - mod_abs(self.modifier)
        } else {
            values.len()
        };
        let mut r: Vec<usize> = Vec::new();
        let mut k = start;
        proof {
            assert(values@.subrange(start as int, start as int) =~= Seq::<usize>::empty());
        }
        while k < end
            invariant
                start <= k <= end,
                end <= values@.len(),
                r@ == values@.subrange(start as int, k as int),
            decreases end - k,
        {
            proof {
                assert(values@.subrange(start as int, k + 1) =~= values@.subrange(
                    start as int,
                    k as int,
                ).push(values@[k as int]));
            }
            r.push(values[k]);
            k = k + 1;
        }
        proof {
            if self.modifier == 0 {
                assert(values@.subrange(0, values@.len() as int) =~= values@);
            }
        }
        r
    }

    /// Executes the expression against a source of die values: samples the
    /// oversized pool, windows it by the modifier, explodes every windowed die
    /// at or above the threshold to a chain, and presents everything in
    /// descending order.
    pub fn execute(&self, roller: &mut Roller, trance: bool) -> (r: ExpressionResult)
        requires
            old(roller).faces() == self.max,
            self.max >= 1,
            self.num + abs_i32(self.modifier) <= usize::MAX,
        ensures
            final(roller).faces() == old(roller).faces(),
            sorted_desc(r.0@),
            forall|i: int| 0 <= i < r.0@.len() ==> 1 <= #[trigger] r.0@[i] <= self.max,
            r.0@.len() >= self.num,
            match self.effective_threshold(trance) {
                None => r.0@.len() == self.num,
                Some(t) => r.0@.len() < usize::MAX ==> count_ge(r.0@, t) == r.0@.len()
                    - self.num,
            },
    {
        let pool = self.total_dice();
        let mut values = roller.sample_iter(pool);
        proof {
            lemma_multiset_range(values@, values@, 1, self.max);
        }
        let ghost sampled = values@;
        sort_ascending(&mut values);
        proof {
            lemma_multiset_range(sampled, values@, 1, self.max);
        }
        let mut values = self.apply_modifier_window(&values);
        assert(forall|i: int| 0 <= i < values@.len() ==> 1 <= #[trigger] values@[i] <= self.max);
        let ghost windowed = values@;
        let threshold: Option<usize> = if trance {
            Some(self.max - 1)
        } else {
            self.threshold
        };
        match threshold {
            None => {},
            Some(t) => {
                let explosions = count_at_or_above(&values, t);
                let mut j: usize = 0;
                while j < explosions
                    invariant
                        j <= explosions,
                        explosions == count_ge(windowed, t),
                        windowed.len() == self.num,
                        roller.faces() == old(roller).faces(),
                        self.max == old(roller).faces(),
                        self.max >= 1,
                        values@.len() >= self.num + j,
                        count_ge(values@, t) == count_ge(windowed, t) + (values@.len()
                            - windowed.len()) - j || values@.len() >= usize::MAX,
                        forall|i: int|
                            0 <= i < values@.len() ==> 1 <= #[trigger] values@[i] <= self.max,
                    decreases explosions - j,
                {
                    let mut chain = roller.explode(t);
                    proof {
                        lemma_count_ge_concat(values@, chain@, t);
                        if chain@.len() < usize::MAX {
                            lemma_count_ge_chain(chain@, t);
                        } else {
                            lemma_count_ge_bounds(chain@, t);
                        }
                    }
                    values.append(&mut chain);
                    j = j + 1;
                }
            },
        }
        let ghost exploded = values@;
        sort_descending(&mut values);
        proof {
            lemma_multiset_range(exploded, values@, 1, self.max);
            match threshold {
                Some(t) => lemma_count_ge_permutation(exploded, values@, t),
                None => (),
            }
        }
        ExpressionResult(values)
    }
}

} // verus!




