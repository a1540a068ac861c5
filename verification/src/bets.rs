//! Bet sizes as a configuration writes them: a comma-separated list of
//! items such as `50%`, `2x`, `150c`, `2e200%` or `allin`.
//!
//! Fractional amounts stay the numerals of the text here; turning them into
//! floating-point values is the caller's part.

use vstd::prelude::*;
use crate::decimal::{parse_i32, parse_i32_text};
use crate::numeral::{float_literal, is_float_literal};
use crate::text::{comma_items, list_items, split_commas};

verus! {

/// A bet size.
#[derive(Debug, Clone, PartialEq, Eq)]
pub enum BetSize {
    /// A fixed amount.
    Absolute(i32),
    /// A share of the pot, as the numeral of its percentage (`50` for `50%`).
    PotScaled(String),
    /// A multiple of the previous bet, as its numeral (`2` for `2x`); raises
    /// only.
    PrevScaled(String),
    /// Geometric sizing over a number of streets (0 for all that are left),
    /// capped at the given percentage of the pot if there is a cap.
    Geometric(i32, Option<String>),
    /// The whole stack.
    AllIn,
}

impl Default for BetSize {
    fn default() -> (r: BetSize)
        ensures
            r@ == BetSizeSpec::AllIn,
    {
        BetSize::AllIn
    }
}

/// What a `BetSize` denotes, with its numerals as character sequences.
pub enum BetSizeSpec {
    Absolute(i32),
    PotScaled(Seq<char>),
    PrevScaled(Seq<char>),
    Geometric(i32, Option<Seq<char>>),
    AllIn,
}

impl View for BetSize {
    type V = BetSizeSpec;

    open spec fn view(&self) -> BetSizeSpec {
        match self {
            BetSize::Absolute(n) => BetSizeSpec::Absolute(*n),
            BetSize::PotScaled(s) => BetSizeSpec::PotScaled(s@),
            BetSize::PrevScaled(s) => BetSizeSpec::PrevScaled(s@),
            BetSize::Geometric(n, cap) => BetSizeSpec::Geometric(
                *n,
                match cap {
                    Some(s) => Some(s@),
                    None => None,
                },
            ),
            BetSize::AllIn => BetSizeSpec::AllIn,
        }
    }
}

/// Why a list of bet sizes cannot be read.
#[derive(Debug, Clone, PartialEq, Eq)]
pub enum BetParseError {
    /// The list has no items.
    EmptyBetString,
    /// A share or multiple is negative; it holds the numeral.
    NegativeBetSize(String),
    /// The text is no numeral of a fraction.
    FloatParseError(String),
    /// The text is no integer.
    IntParseError(String),
    /// The item does not end in a known suffix.
    InvalidSuffix(String),
    /// Another rule is broken, as the message says.
    Custom(String),
}

/// What a `BetParseError` denotes.
pub enum BetErrorSpec {
    EmptyBetString,
    NegativeBetSize(Seq<char>),
    FloatParseError(Seq<char>),
    IntParseError(Seq<char>),
    InvalidSuffix(Seq<char>),
    Custom(Seq<char>),
}

impl View for BetParseError {
    type V = BetErrorSpec;

    open spec fn view(&self) -> BetErrorSpec {
        match self {
            BetParseError::EmptyBetString => BetErrorSpec::EmptyBetString,
            BetParseError::NegativeBetSize(s) => BetErrorSpec::NegativeBetSize(s@),
            BetParseError::FloatParseError(s) => BetErrorSpec::FloatParseError(s@),
            BetParseError::IntParseError(s) => BetErrorSpec::IntParseError(s@),
            BetParseError::InvalidSuffix(s) => BetErrorSpec::InvalidSuffix(s@),
            BetParseError::Custom(s) => BetErrorSpec::Custom(s@),
        }
    }
}

/// What a result of reading a bet size denotes.
pub open spec fn bet_result_view(r: Result<BetSize, BetParseError>) -> Result<
    BetSizeSpec,
    BetErrorSpec,
> {
    match r {
        Ok(b) => Ok(b@),
        Err(e) => Err(e@),
    }
}

/// The message for a geometric street count outside `1..=100`.
pub open spec fn street_count_message() -> Seq<char> {
    "Invalid geometric bet street number."@
}

/// The message for a multiple of the previous bet on a bet.
pub open spec fn prev_scaled_message() -> Seq<char> {
    "Can only scale previous bet on raises."@
}

/// The position of the first `c` at `s`, or its length.
pub open spec fn first_index_of(s: Seq<char>, c: char) -> int
    decreases s.len(),
{
    if s.len() == 0 {
        0
    } else if s[0] == c {
        0
    } else {
        1 + first_index_of(s.drop_first(), c)
    }
}

/// The text without the copies of `c` at its end.
pub open spec fn strip_trailing(s: Seq<char>, c: char) -> Seq<char>
    decreases s.len(),
{
    if s.len() > 0 && s.last() == c {
        strip_trailing(s.drop_last(), c)
    } else {
        s
    }
}

/// An item with an `e`: the number of streets before it (none: 0; it must
/// be an integer in `1..=100`), and after it, up to a second `e`, the cap:
/// nothing, or a numeral followed by `%`.
pub open spec fn geometric_spec(p: Seq<char>) -> Result<BetSizeSpec, BetErrorSpec> {
    let k = first_index_of(p, 'e');
    let a = p.take(k);
    let rest = p.skip(k + 1);
    let b = rest.take(first_index_of(rest, 'e'));
    let streets: Result<i32, BetErrorSpec> = if a.len() == 0 {
        Ok(0i32)
    } else {
        match parse_i32_text(a) {
            None => Err(BetErrorSpec::IntParseError(a)),
            Some(n) => if n == 0 || n > 100 {
                Err(BetErrorSpec::Custom(street_count_message()))
            } else {
                Ok(n)
            },
        }
    };
    match streets {
        Err(e) => Err(e),
        Ok(n) => if b.len() == 0 {
            Ok(BetSizeSpec::Geometric(n, None))
        } else if b.last() != '%' {
            Err(BetErrorSpec::InvalidSuffix(b))
        } else if !is_float_literal(b.drop_last()) {
            Err(BetErrorSpec::FloatParseError(b.drop_last()))
        } else {
            Ok(BetSizeSpec::Geometric(n, Some(b.drop_last())))
        },
    }
}

/// What one item of a list of bet sizes reads as: `allin` or `a`; an
/// item with an `e` (geometric); or by its last character an amount (`c`), a
/// share of the pot (`%`) or, for raises, a multiple of the previous bet
/// (`x`), with the numeral before the run of suffix characters.
pub open spec fn bet_spec(p: Seq<char>, raise: bool) -> Result<BetSizeSpec, BetErrorSpec> {
    if p == "allin"@ || p == "a"@ {
        Ok(BetSizeSpec::AllIn)
    } else if first_index_of(p, 'e') < p.len() {
        geometric_spec(p)
    } else if p.last() == 'c' {
        let t = strip_trailing(p, 'c');
        match parse_i32_text(t) {
            Some(n) => Ok(BetSizeSpec::Absolute(n)),
            None => Err(BetErrorSpec::IntParseError(t)),
        }
    } else if p.last() == '%' {
        let t = strip_trailing(p, '%');
        if is_float_literal(t) {
            Ok(BetSizeSpec::PotScaled(t))
        } else {
            Err(BetErrorSpec::FloatParseError(t))
        }
    } else if p.last() == 'x' {
        if !raise {
            Err(BetErrorSpec::Custom(prev_scaled_message()))
        } else {
            let t = strip_trailing(p, 'x');
            if is_float_literal(t) {
                Ok(BetSizeSpec::PrevScaled(t))
            } else {
                Err(BetErrorSpec::FloatParseError(t))
            }
        }
    } else {
        Err(BetErrorSpec::InvalidSuffix(p))
    }
}

pub proof fn lemma_first_index(s: Seq<char>, c: char)
    ensures
        0 <= first_index_of(s, c) <= s.len(),
        forall|i: int| 0 <= i < first_index_of(s, c) ==> #[trigger] s[i] != c,
        first_index_of(s, c) < s.len() ==> s[first_index_of(s, c)] == c,
    decreases s.len(),
{
    if s.len() > 0 && s[0] != c {
        lemma_first_index(s.drop_first(), c);
        assert forall|i: int| 0 <= i < first_index_of(s, c) implies #[trigger] s[i] != c by {
            if i > 0 {
                assert(s[i] == s.drop_first()[i - 1]);
            }
        }
    }
}

/// The position of the first `c` at or after `from`, or the length.
pub fn find_char(t: &str, c: char, from: usize) -> (r: usize)
    requires
        from <= t@.len(),
    ensures
        r == from + first_index_of(t@.subrange(from as int, t@.len() as int), c),
        from <= r <= t@.len(),
{
    let n = t.unicode_len();
    let ghost u = t@.subrange(from as int, n as int);
    proof {
        lemma_first_index(u, c);
    }
    let mut k = from;
    while k < n && t.get_char(k) != c
        invariant
            n == t@.len(),
            from <= k <= n,
            u == t@.subrange(from as int, n as int),
            k - from <= first_index_of(u, c),
            0 <= first_index_of(u, c) <= u.len(),
            first_index_of(u, c) < u.len() ==> u[first_index_of(u, c)] == c,
        decreases n - k,
    {
        proof {
            assert(u[k - from] == t@[k as int]);
        }
        k = k + 1;
    }
    proof {
        if k < n {
            assert(u[k - from] == t@[k as int]);
        }
    }
    k
}

/// The end of the text from `0` to `end` once the copies of `c` at its end
/// are left out.
fn strip_end(t: &str, end: usize, c: char) -> (r: usize)
    requires
        end <= t@.len(),
    ensures
        r <= end,
        t@.subrange(0, r as int) == strip_trailing(t@.subrange(0, end as int), c),
{
    let mut e = end;
    while e > 0 && t.get_char(e - 1) == c
        invariant
            e <= end <= t@.len(),
            strip_trailing(t@.subrange(0, e as int), c) == strip_trailing(t@.subrange(0, end as int), c),
        decreases e,
    {
        proof {
            assert(t@.subrange(0, e as int).drop_last() =~= t@.subrange(0, e - 1));
        }
        e = e - 1;
    }
    e
}

/// Whether two texts are the same.
pub fn same_text(a: &str, b: &str) -> (r: bool)
    ensures
        r == (a@ == b@),
{
    let n = a.unicode_len();
    if n != b.unicode_len() {
        return false;
    }
    let mut i: usize = 0;
    while i < n
        invariant
            n == a@.len(),
            n == b@.len(),
            i <= n,
            forall|j: int| 0 <= j < i ==> a@[j] == b@[j],
        decreases n - i,
    {
        if a.get_char(i) != b.get_char(i) {
            return false;
        }
        i = i + 1;
    }
    assert(a@ =~= b@);
    true
}

/// A numeral of a fraction, or the error that names the text.
fn fraction(t: &str) -> (r: Result<String, BetParseError>)
    ensures
        match r {
            Ok(s) => is_float_literal(t@) && s@ == t@,
            Err(e) => !is_float_literal(t@) && e@ == BetErrorSpec::FloatParseError(t@),
        },
{
    if float_literal(t) {
        Ok(t.to_owned())
    } else {
        Err(BetParseError::FloatParseError(t.to_owned()))
    }
}

/// Reads a geometric item (one with an `e`), as `geometric_spec` states.
fn parse_geometric(p: &str) -> (r: Result<BetSize, BetParseError>)
    requires
        first_index_of(p@, 'e') < p@.len(),
    ensures
        bet_result_view(r) == geometric_spec(p@),
{
    let n = p.unicode_len();
    let k = find_char(p, 'e', 0);
    assert(p@.subrange(0, n as int) =~= p@);
    let a = p.substring_char(0, k);
    let k2 = find_char(p, 'e', k + 1);
    let b = p.substring_char(k + 1, k2);
    proof {
        let rest = p@.skip(k + 1);
        assert(rest =~= p@.subrange(k + 1, n as int));
        assert(b@ =~= rest.take(first_index_of(rest, 'e')));
        assert(a@ =~= p@.take(first_index_of(p@, 'e')));
        reveal_strlit("Invalid geometric bet street number.");
    }
    let streets: i32 = if k == 0 {
        0
    } else {
        match parse_i32(a) {
            None => {
                return Err(BetParseError::IntParseError(a.to_owned()));
            },
            Some(v) => {
                if v == 0 || v > 100 {
                    return Err(
                        BetParseError::Custom(String::from_str("Invalid geometric bet street number.")),
                    );
                }
                v
            },
        }
    };
    let bn = b.unicode_len();
    if bn == 0 {
        return Ok(BetSize::Geometric(streets, None));
    }
    if b.get_char(bn - 1) != '%' {
        return Err(BetParseError::InvalidSuffix(b.to_owned()));
    }
    let num = b.substring_char(0, bn - 1);
    proof {
        assert(num@ =~= b@.drop_last());
    }
    match fraction(num) {
        Ok(s) => Ok(BetSize::Geometric(streets, Some(s))),
        Err(e) => Err(e),
    }
}

/// Reads one item of a list of bet sizes, given trimmed and in lowercase,
/// as `bet_spec` states; `raise` tells whether the list is one of raises.
pub fn parse_bet(p: &str, raise: bool) -> (r: Result<BetSize, BetParseError>)
    requires
        p@.len() > 0,
    ensures
        bet_result_view(r) == bet_spec(p@, raise),
{
    let n = p.unicode_len();
    if same_text(p, "allin") || same_text(p, "a") {
        return Ok(BetSize::AllIn);
    }
    let k = find_char(p, 'e', 0);
    assert(p@.subrange(0, n as int) =~= p@);
    if k < n {
        return parse_geometric(p);
    }
    let last = p.get_char(n - 1);
    proof {
        reveal_strlit("Can only scale previous bet on raises.");
    }
    if last == 'c' {
        let e = strip_end(p, n, 'c');
        let t = p.substring_char(0, e);
        match parse_i32(t) {
            Some(v) => Ok(BetSize::Absolute(v)),
            None => Err(BetParseError::IntParseError(t.to_owned())),
        }
    } else if last == '%' {
        let e = strip_end(p, n, '%');
        let t = p.substring_char(0, e);
        match fraction(t) {
            Ok(s) => Ok(BetSize::PotScaled(s)),
            Err(err) => Err(err),
        }
    } else if last == 'x' {
        if !raise {
            return Err(BetParseError::Custom(String::from_str("Can only scale previous bet on raises.")));
        }
        let e = strip_end(p, n, 'x');
        let t = p.substring_char(0, e);
        match fraction(t) {
            Ok(s) => Ok(BetSize::PrevScaled(s)),
            Err(err) => Err(err),
        }
    } else {
        Err(BetParseError::InvalidSuffix(p.to_owned()))
    }
}

/// The items of a list of bet sizes: the parts between commas, trimmed and
/// in lowercase, empty ones left out.
pub fn bet_items(s: &str) -> (r: Vec<String>)
    ensures
        r@.map_values(|x: String| x@) == list_items(split_commas(s@)),
        forall|i: int| 0 <= i < r@.len() ==> (#[trigger] r@[i])@.len() > 0,
{
    let r = comma_items(s);
    proof {
        lemma_items_nonempty(split_commas(s@));
        assert forall|i: int| 0 <= i < r@.len() implies (#[trigger] r@[i])@.len() > 0 by {
            assert(r@.map_values(|x: String| x@)[i] == r@[i]@);
        }
    }
    r
}

/// A list of bet sizes read in order: the sizes of the items read before
/// the first item that cannot be read, and the error of that item (or
/// `EmptyBetString` for a list without items); no error when every item
/// was read.
#[derive(Debug)]
pub struct BetList {
    pub sizes: Vec<BetSize>,
    pub error: Option<BetParseError>,
}

/// Reads the list of bet sizes `s` item by item (see `bet_items` and
/// `parse_bet`), stopping at the first item that cannot be read; `raise`
/// tells whether the list is one of raises.
pub fn bet_list(s: &str, raise: bool) -> (r: BetList)
    ensures
        ({
            let items = list_items(split_commas(s@));
            &&& items.len() == 0 ==> r.sizes@.len() == 0 && (r.error matches Some(e) && e@
                == BetErrorSpec::EmptyBetString)
            &&& items.len() > 0 ==> {
                &&& r.sizes@.len() <= items.len()
                &&& forall|i: int|
                    0 <= i < r.sizes@.len() ==> bet_spec(items[i], raise) == Ok::<BetSizeSpec, BetErrorSpec>(
                        (#[trigger] r.sizes@[i])@,
                    )
                &&& r.sizes@.len() < items.len() ==> (r.error matches Some(e) && bet_spec(
                    items[r.sizes@.len() as int],
                    raise,
                ) == Err::<BetSizeSpec, BetErrorSpec>(e@))
                &&& r.sizes@.len() == items.len() ==> r.error is None
            }
        }),
{
    let items = bet_items(s);
    let ghost spec_items = list_items(split_commas(s@));
    if items.len() == 0 {
        return BetList { sizes: Vec::new(), error: Some(BetParseError::EmptyBetString) };
    }
    let mut sizes: Vec<BetSize> = Vec::new();
    let n = items.len();
    assert(spec_items.len() == n);
    for i in 0..n
        invariant
            n == items@.len(),
            spec_items.len() == n,
            spec_items == list_items(split_commas(s@)),
            items@.map_values(|x: String| x@) == spec_items,
            forall|j: int| 0 <= j < items@.len() ==> (#[trigger] items@[j])@.len() > 0,
            sizes@.len() == i,
            forall|j: int|
                0 <= j < i ==> bet_spec(spec_items[j], raise) == Ok::<BetSizeSpec, BetErrorSpec>(
                    (#[trigger] sizes@[j])@,
                ),
    {
        proof {
            assert(items@.map_values(|x: String| x@)[i as int] == items@[i as int]@);
        }
        match parse_bet(items[i].as_str(), raise) {
            Ok(b) => {
                let ghost before = sizes@;
                sizes.push(b);
                proof {
                    assert(bet_spec(spec_items[i as int], raise) == Ok::<BetSizeSpec, BetErrorSpec>(b@));
                    assert forall|j: int| 0 <= j < i + 1 implies bet_spec(spec_items[j], raise) == Ok::<
                        BetSizeSpec,
                        BetErrorSpec,
                    >((#[trigger] sizes@[j])@) by {
                        if j < i {
                            assert(sizes@[j] == before[j]);
                        }
                    }
                }
            },
            Err(e) => {
                proof {
                    assert(bet_spec(spec_items[i as int], raise) == Err::<BetSizeSpec, BetErrorSpec>(e@));
                    assert(sizes@.len() < spec_items.len());
                }
                return BetList { sizes, error: Some(e) };
            },
        }
    }
    BetList { sizes, error: None }
}

proof fn lemma_items_nonempty(parts: Seq<Seq<char>>)
    ensures
        forall|i: int| 0 <= i < list_items(parts).len() ==> (#[trigger] list_items(parts)[i]).len() > 0,
    decreases parts.len(),
{
    if parts.len() > 0 {
        lemma_items_nonempty(parts.drop_last());
        let prev = list_items(parts.drop_last());
        assert forall|i: int| 0 <= i < list_items(parts).len() implies (#[trigger] list_items(parts)[i]).len() > 0 by {
            if i < prev.len() {
                assert(list_items(parts)[i] == prev[i]);
            }
        }
    }
}

} // verus!
