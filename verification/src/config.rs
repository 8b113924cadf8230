//! Reading the rules of a game from what a player typed.

use crate::board::GameConfig;
use crate::text::{decimal, digit, joined, lemma_decimal_digits};
use vstd::prelude::*;

verus! {

/// Why a configuration was rejected.
#[derive(Clone, Copy, PartialEq, Eq, Debug, Structural)]
pub enum ConfigError {
    /// The ship list is not made of numbers and commas.
    NotNumbers,
    /// There is no ship, or one of length zero.
    NoShips,
    /// A ship is longer than the larger side of the board.
    ShipTooLong,
    /// The ships have more cells than the board.
    FleetTooLarge,
}

impl ConfigError {
    pub fn message(self) -> (r: &'static str)
        ensures
            r@ == (match self {
                ConfigError::NotNumbers => "Ship list must be comma-separated numbers."@,
                ConfigError::NoShips => "Need at least one ship, all lengths ≥ 1."@,
                ConfigError::ShipTooLong => "A ship is longer than the board's largest side."@,
                ConfigError::FleetTooLarge => "Ships can't fit: total length exceeds the board."@,
            }),
    {
        match self {
            ConfigError::NotNumbers => "Ship list must be comma-separated numbers.",
            ConfigError::NoShips => "Need at least one ship, all lengths ≥ 1.",
            ConfigError::ShipTooLong => "A ship is longer than the board's largest side.",
            ConfigError::FleetTooLarge => "Ships can't fit: total length exceeds the board.",
        }
    }
}

/// The parts of a text between its commas.
pub open spec fn fields(s: Seq<char>) -> Seq<Seq<char>>
    decreases s.len(),
{
    if s.len() == 0 {
        seq![Seq::empty()]
    } else {
        let prev = fields(s.drop_last());
        if s.last() == ',' {
            prev.push(Seq::empty())
        } else {
            prev.drop_last().push(prev.last().push(s.last()))
        }
    }
}

/// White space, as Unicode defines it.
pub open spec fn is_space(c: char) -> bool {
    ||| '\u{9}' <= c <= '\u{d}'
    ||| c == ' '
    ||| c == '\u{85}'
    ||| c == '\u{a0}'
    ||| c == '\u{1680}'
    ||| '\u{2000}' <= c <= '\u{200a}'
    ||| c == '\u{2028}'
    ||| c == '\u{2029}'
    ||| c == '\u{202f}'
    ||| c == '\u{205f}'
    ||| c == '\u{3000}'
}

/// The text without white space at its start.
pub open spec fn trim_start(s: Seq<char>) -> Seq<char>
    decreases s.len(),
{
    if s.len() > 0 && is_space(s[0]) {
        trim_start(s.drop_first())
    } else {
        s
    }
}

/// The text without white space at its end.
pub open spec fn trim_end(s: Seq<char>) -> Seq<char>
    decreases s.len(),
{
    if s.len() > 0 && is_space(s.last()) {
        trim_end(s.drop_last())
    } else {
        s
    }
}

/// The text without white space around it.
pub open spec fn trim(s: Seq<char>) -> Seq<char> {
    trim_end(trim_start(s))
}

/// A decimal digit.
pub open spec fn is_digit(c: char) -> bool {
    '0' <= c <= '9'
}

/// The number that digits stand for.
pub open spec fn value(d: Seq<char>) -> nat
    decreases d.len(),
{
    if d.len() == 0 {
        0
    } else {
        value(d.drop_last()) * 10 + (d.last() as nat - '0' as nat) as nat
    }
}

/// The text behind an optional plus sign.
pub open spec fn unsigned(s: Seq<char>) -> Seq<char> {
    if s.len() > 0 && s[0] == '+' {
        s.drop_first()
    } else {
        s
    }
}

/// At least one character, and nothing but digits.
pub open spec fn numeric(d: Seq<char>) -> bool {
    d.len() > 0 && forall|i: int| 0 <= i < d.len() ==> is_digit(#[trigger] d[i])
}

/// The number that a text stands for: digits, after an optional plus sign, of a
/// number that is a `usize`.
pub open spec fn number(s: Seq<char>) -> Option<usize> {
    let d = unsigned(s);
    if numeric(d) && value(d) <= usize::MAX {
        Some(value(d) as usize)
    } else {
        None
    }
}

/// The numbers of the first `k` fields, blank fields left out, or nothing when
/// a field that is not blank is no number.
pub open spec fn numbers(fs: Seq<Seq<char>>, k: nat) -> Option<Seq<usize>>
    decreases k,
{
    if k == 0 {
        Some(Seq::empty())
    } else {
        match numbers(fs, (k - 1) as nat) {
            None => None,
            Some(v) => {
                let t = trim(fs[k - 1]);
                if t.len() == 0 {
                    Some(v)
                } else {
                    match number(t) {
                        None => None,
                        Some(n) => Some(v.push(n)),
                    }
                }
            },
        }
    }
}

/// The ship lengths that a text lists, with commas between them.
pub open spec fn ship_list(s: Seq<char>) -> Option<Seq<usize>> {
    numbers(fields(s), fields(s).len())
}

/// The sum of the lengths.
pub open spec fn total_len(v: Seq<usize>) -> nat
    decreases v.len(),
{
    if v.len() == 0 {
        0
    } else {
        total_len(v.drop_last()) + v.last() as nat
    }
}

/// The first objection to a fleet on a board of the given sides.
pub open spec fn objection(width: int, height: int, ships: Option<Seq<usize>>) -> Option<
    ConfigError,
> {
    match ships {
        None => Some(ConfigError::NotNumbers),
        Some(v) => if v.len() == 0 || v.contains(0) {
            Some(ConfigError::NoShips)
        } else if exists|i: int|
            0 <= i < v.len() && #[trigger] v[i] > width && v[i] > height {
            Some(ConfigError::ShipTooLong)
        } else if total_len(v) > width * height {
            Some(ConfigError::FleetTooLarge)
        } else {
            None
        },
    }
}

impl GameConfig {
    /// A fleet that a configuration may have.
    pub open spec fn playable(&self) -> bool {
        objection(self.width as int, self.height as int, Some(self.ships@)) is None
    }
}

fn char_is_space(c: char) -> (r: bool)
    ensures
        r == is_space(c),
{
    ('\u{9}' <= c && c <= '\u{d}') || c == ' ' || c == '\u{85}' || c == '\u{a0}' || c == '\u{1680}'
        || ('\u{2000}' <= c && c <= '\u{200a}') || c == '\u{2028}' || c == '\u{2029}' || c
        == '\u{202f}' || c == '\u{205f}' || c == '\u{3000}'
}

/// The characters of a text.
fn to_chars(s: &str) -> (r: Vec<char>)
    ensures
        r@ == s@,
{
    let n = s.unicode_len();
    let mut v: Vec<char> = Vec::with_capacity(n);
    let mut i: usize = 0;
    while i < n
        invariant
            i <= n,
            n == s@.len(),
            v@ == s@.take(i as int),
        decreases n - i,
    {
        v.push(s.get_char(i));
        i += 1;
        assert(v@ =~= s@.take(i as int));
    }
    assert(s@.take(i as int) =~= s@);
    v
}

/// The number that the characters of a field stand for, white space around it
/// aside; `Ok(None)` when the field is blank.
fn read_field(s: &Vec<char>) -> (r: Result<Option<usize>, ()>)
    ensures
        ({
            let t = trim(s@);
            match r {
                Ok(None) => t.len() == 0,
                Ok(Some(n)) => t.len() > 0 && number(t) == Some(n),
                Err(()) => t.len() > 0 && number(t) is None,
            }
        }),
{
    let mut from: usize = 0;
    assert(s@.skip(0) =~= s@);
    while from < s.len() && char_is_space(s[from])
        invariant
            from <= s@.len(),
            trim_start(s@.skip(from as int)) == trim_start(s@),
        decreases s@.len() - from,
    {
        assert(s@.skip(from as int).drop_first() =~= s@.skip(from + 1));
        from += 1;
    }
    let ghost started = s@.skip(from as int);
    let mut to: usize = s.len();
    assert(s@.subrange(from as int, to as int) =~= started);
    while to > from && char_is_space(s[to - 1])
        invariant
            from <= to <= s@.len(),
            trim_end(s@.subrange(from as int, to as int)) == trim_end(started),
        decreases to,
    {
        assert(s@.subrange(from as int, to as int).drop_last() =~= s@.subrange(
            from as int,
            to - 1,
        ));
        to -= 1;
    }
    let ghost t = s@.subrange(from as int, to as int);
    assert(t == trim(s@));
    if from == to {
        return Ok(None);
    }
    let first: usize = if s[from] == '+' {
        from + 1
    } else {
        from
    };
    let ghost d = unsigned(t);
    assert(d =~= s@.subrange(first as int, to as int));
    if first == to {
        return Err(());
    }
    let mut n: usize = 0;
    let mut i: usize = first;
    assert(s@.subrange(first as int, first as int) =~= Seq::empty());
    while i < to
        invariant
            first <= i <= to <= s@.len(),
            first < to,
            t.len() > 0,
            t == trim(s@),
            d == unsigned(t),
            d == s@.subrange(first as int, to as int),
            n == value(d.take(i - first)),
            forall|k: int| 0 <= k < i - first ==> is_digit(#[trigger] d[k]),
        decreases to - i,
    {
        let c = s[i];
        let ghost part = d.take(i - first);
        let ghost next = d.take(i + 1 - first);
        assert(d[i - first] == c);
        if !('0' <= c && c <= '9') {
            assert(!is_digit(d[i - first]));
            return Err(());
        }
        let x: usize = (c as u32 - '0' as u32) as usize;
        proof {
            assert(next.drop_last() =~= part);
            assert(value(next) == n * 10 + x);
            lemma_value_grows(d, i + 1 - first);
        }
        match n.checked_mul(10) {
            None => {
                return Err(());
            },
            Some(m) => {
                match m.checked_add(x) {
                    None => {
                        return Err(());
                    },
                    Some(sum) => {
                        n = sum;
                    },
                }
            },
        }
        i += 1;
    }
    assert(d.take(to - first) =~= d);
    Ok(Some(n))
}

proof fn lemma_value_grows(d: Seq<char>, k: int)
    requires
        0 <= k <= d.len(),
    ensures
        value(d.take(k)) <= value(d),
    decreases d.len() - k,
{
    if k < d.len() {
        lemma_value_grows(d, k + 1);
        assert(d.take(k + 1).drop_last() =~= d.take(k));
    } else {
        assert(d.take(k) =~= d);
    }
}

/// The ship lengths that a text lists.
pub fn parse_ships(text: &str) -> (r: Option<Vec<usize>>)
    ensures
        r is Some <==> ship_list(text@) is Some,
        r matches Some(v) ==> ship_list(text@) == Some(v@),
{
    let s = to_chars(text);
    let ghost all = fields(s@);
    let mut ships: Vec<usize> = Vec::new();
    let mut field: Vec<char> = Vec::new();
    let ghost mut done: nat = 0;
    let mut i: usize = 0;
    proof {
        assert(s@.take(0) =~= Seq::empty());
        assert(fields(s@.take(0)).drop_last() =~= Seq::empty());
        lemma_fields_prefix(s@, 0);
    }
    while i < s.len()
        invariant
            i <= s@.len(),
            all == fields(s@),
            fields(s@.take(i as int)).len() == done + 1,
            field@ == fields(s@.take(i as int)).last(),
            numbers(all, done) == Some(ships@),
            done < all.len(),
            s@ == text@,
        decreases s@.len() - i,
    {
        let c = s[i];
        let ghost before = fields(s@.take(i as int));
        proof {
            assert(s@.take(i + 1).drop_last() =~= s@.take(i as int));
            lemma_fields_prefix(s@, i + 1);
        }
        if c == ',' {
            proof {
                lemma_fields_prefix_item(s@, i + 1, done as int);
                assert(all[done as int] == field@);
            }
            match read_field(&field) {
                Err(()) => {
                    proof {
                        lemma_numbers_none(all, done + 1, all.len());
                    }
                    return None;
                },
                Ok(None) => {},
                Ok(Some(n)) => {
                    ships.push(n);
                },
            }
            field = Vec::new();
            proof {
                done = done + 1;
            }
        } else {
            field.push(c);
        }
        i += 1;
    }
    proof {
        assert(s@.take(i as int) =~= s@);
        assert(all[done as int] == field@);
    }
    match read_field(&field) {
        Err(()) => None,
        Ok(None) => Some(ships),
        Ok(Some(n)) => {
            ships.push(n);
            Some(ships)
        },
    }
}

proof fn lemma_numbers_none(fs: Seq<Seq<char>>, k: nat, m: nat)
    requires
        k <= m,
        numbers(fs, k) is None,
    ensures
        numbers(fs, m) is None,
    decreases m,
{
    if k < m {
        lemma_numbers_none(fs, k, (m - 1) as nat);
    }
}

/// A longer text has at least as many fields.
proof fn lemma_fields_prefix(s: Seq<char>, i: int)
    requires
        0 <= i <= s.len(),
    ensures
        1 <= fields(s.take(i)).len() <= fields(s).len(),
    decreases s.len() - i,
{
    if i < s.len() {
        lemma_fields_prefix(s, i + 1);
        lemma_fields_nonempty(s.take(i));
        assert(s.take(i + 1).drop_last() =~= s.take(i));
    } else {
        assert(s.take(i) =~= s);
        lemma_fields_nonempty(s);
    }
}

proof fn lemma_fields_nonempty(s: Seq<char>)
    ensures
        fields(s).len() >= 1,
    decreases s.len(),
{
    if s.len() > 0 {
        lemma_fields_nonempty(s.drop_last());
    }
}

/// A field that a comma has ended stays as it is.
proof fn lemma_fields_prefix_item(s: Seq<char>, i: int, k: int)
    requires
        0 <= i <= s.len(),
        0 <= k < fields(s.take(i)).len() - 1,
    ensures
        k < fields(s).len() - 1,
        fields(s)[k] == fields(s.take(i))[k],
    decreases s.len() - i,
{
    if i < s.len() {
        lemma_fields_nonempty(s.take(i));
        assert(s.take(i + 1).drop_last() =~= s.take(i));
        lemma_fields_prefix_item(s, i + 1, k);
    } else {
        assert(s.take(i) =~= s);
    }
}

/// Builds the rules of a game from the sides of the board, the text that lists
/// the ships, and the gap rule.
pub fn build_config(width: usize, height: usize, text: &str, gap_rule: bool) -> (r: Result<
    GameConfig,
    ConfigError,
>)
    requires
        width * height <= usize::MAX,
    ensures
        match (r, objection(width as int, height as int, ship_list(text@))) {
            (Err(e), Some(o)) => e == o,
            (Ok(cfg), None) => {
                &&& cfg.width == width
                &&& cfg.height == height
                &&& Some(cfg.ships@) == ship_list(text@)
                &&& cfg.gap_rule == gap_rule
                &&& cfg.playable()
            },
            _ => false,
        },
{
    let ships = match parse_ships(text) {
        None => {
            return Err(ConfigError::NotNumbers);
        },
        Some(v) => v,
    };
    if ships.len() == 0 {
        return Err(ConfigError::NoShips);
    }
    let mut i: usize = 0;
    while i < ships.len()
        invariant
            i <= ships@.len(),
            ships@.len() > 0,
            ship_list(text@) == Some(ships@),
            forall|k: int| 0 <= k < i ==> ships@[k] != 0,
        decreases ships@.len() - i,
    {
        if ships[i] == 0 {
            assert(ships@.contains(0));
            return Err(ConfigError::NoShips);
        }
        i += 1;
    }
    assert(!ships@.contains(0));
    let mut i: usize = 0;
    while i < ships.len()
        invariant
            i <= ships@.len(),
            ships@.len() > 0,
            !ships@.contains(0),
            ship_list(text@) == Some(ships@),
            forall|k: int| 0 <= k < i ==> !(#[trigger] ships@[k] > width && ships@[k] > height),
        decreases ships@.len() - i,
    {
        if ships[i] > width && ships[i] > height {
            return Err(ConfigError::ShipTooLong);
        }
        i += 1;
    }
    let cells: usize = width * height;
    let mut sum: usize = 0;
    let mut i: usize = 0;
    assert(ships@.take(0) =~= Seq::empty());
    while i < ships.len()
        invariant
            i <= ships@.len(),
            ships@.len() > 0,
            !ships@.contains(0),
            ship_list(text@) == Some(ships@),
            cells == width * height,
            sum <= cells,
            sum == total_len(ships@.take(i as int)),
            forall|k: int|
                0 <= k < ships@.len() ==> !(#[trigger] ships@[k] > width && ships@[k] > height),
        decreases ships@.len() - i,
    {
        proof {
            assert(ships@.take(i + 1).drop_last() =~= ships@.take(i as int));
            lemma_total_grows(ships@, i + 1);
        }
        if ships[i] > cells - sum {
            return Err(ConfigError::FleetTooLarge);
        }
        sum = sum + ships[i];
        i += 1;
    }
    assert(ships@.take(i as int) =~= ships@);
    Ok(GameConfig { width, height, ships, gap_rule })
}

proof fn lemma_total_grows(v: Seq<usize>, k: int)
    requires
        0 <= k <= v.len(),
    ensures
        total_len(v.take(k)) <= total_len(v),
    decreases v.len() - k,
{
    if k < v.len() {
        lemma_total_grows(v, k + 1);
        assert(v.take(k + 1).drop_last() =~= v.take(k));
    } else {
        assert(v.take(k) =~= v);
    }
}

/// Decimal notation is a number, and stands for the number it was made from.
pub proof fn lemma_number_of_decimal(n: usize)
    ensures
        trim(decimal(n as nat)) == decimal(n as nat),
        number(decimal(n as nat)) == Some(n),
{
    let d = decimal(n as nat);
    lemma_decimal_digits(n as nat);
    lemma_value_of_decimal(n as nat);
    assert('0' <= d[0] <= '9' && '0' <= d[d.len() - 1] <= '9');
    assert(trim_start(d) == d);
    assert(numeric(d)) by {
        assert forall|i: int| 0 <= i < d.len() implies is_digit(#[trigger] d[i]) by {}
    }
}

proof fn lemma_value_of_decimal(n: nat)
    ensures
        value(decimal(n)) == n,
    decreases n,
{
    let d = decimal(n);
    if n < 10 {
        assert(d.drop_last() =~= Seq::empty());
        assert(value(d.drop_last()) == 0);
        assert(d.last() == digit(n as int));
        assert(digit(n as int) as nat == '0' as nat + n);
    } else {
        lemma_value_of_decimal(n / 10);
        assert(d.drop_last() =~= decimal(n / 10));
        assert(digit((n % 10) as int) as nat == '0' as nat + n % 10);
    }
}

/// Text without a comma only lengthens the last field.
proof fn lemma_fields_extend(a: Seq<char>, b: Seq<char>)
    requires
        forall|i: int| 0 <= i < b.len() ==> #[trigger] b[i] != ',',
    ensures
        fields(a + b) == fields(a).drop_last().push(fields(a).last() + b),
    decreases b.len(),
{
    lemma_fields_nonempty(a);
    if b.len() == 0 {
        assert(a + b =~= a);
        assert(fields(a).last() + b =~= fields(a).last());
        assert(fields(a).drop_last().push(fields(a).last()) =~= fields(a));
    } else {
        let c = b.drop_last();
        lemma_fields_extend(a, c);
        assert((a + b).drop_last() =~= a + c);
        assert((fields(a).last() + c).push(b.last()) =~= fields(a).last() + b);
        assert(fields(a + b) =~= fields(a).drop_last().push(fields(a).last() + b));
    }
}

proof fn lemma_fields_of_joined(v: Seq<usize>)
    requires
        v.len() > 0,
    ensures
        fields(joined(v, ","@)) == v.map_values(|n: usize| decimal(n as nat)),
    decreases v.len(),
{
    reveal_strlit(",");
    let want = v.map_values(|n: usize| decimal(n as nat));
    let d = decimal(v.last() as nat);
    lemma_decimal_digits(v.last() as nat);
    if v.len() == 1 {
        let none = Seq::<char>::empty();
        lemma_fields_extend(none, d);
        assert(none + d =~= d);
        assert(fields(d) =~= want);
    } else {
        let w = v.drop_last();
        let head = joined(w, ","@);
        lemma_fields_of_joined(w);
        assert((head + ","@).drop_last() =~= head);
        assert(fields(head + ","@) == fields(head).push(Seq::empty()));
        lemma_fields_extend(head + ","@, d);
        assert(Seq::<char>::empty() + d =~= d);
        assert(fields(joined(v, ","@)) =~= want);
    }
}

/// The text that joins ship lengths with commas lists those lengths.
pub proof fn lemma_ship_list_of_joined(v: Seq<usize>)
    ensures
        ship_list(joined(v, ","@)) == Some(v),
{
    let fs = fields(joined(v, ","@));
    if v.len() == 0 {
        assert(numbers(fs, 0) == Some(Seq::<usize>::empty()));
        assert(trim(fs[0]) =~= Seq::empty());
        assert(numbers(fs, 1) == Some(Seq::<usize>::empty()));
        assert(v =~= Seq::empty());
    } else {
        lemma_fields_of_joined(v);
        lemma_numbers_of_decimals(fs, v, v.len());
        assert(v.take(v.len() as int) =~= v);
    }
}

proof fn lemma_numbers_of_decimals(fs: Seq<Seq<char>>, v: Seq<usize>, k: nat)
    requires
        fs == v.map_values(|n: usize| decimal(n as nat)),
        k <= v.len(),
    ensures
        numbers(fs, k) == Some(v.take(k as int)),
    decreases k,
{
    if k == 0 {
        assert(v.take(0) =~= Seq::empty());
    } else {
        lemma_numbers_of_decimals(fs, v, (k - 1) as nat);
        lemma_number_of_decimal(v[k - 1]);
        lemma_decimal_digits(v[k - 1] as nat);
        assert(v.take(k - 1).push(v[k - 1]) =~= v.take(k as int));
    }
}

} // verus!
