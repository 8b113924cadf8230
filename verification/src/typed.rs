//! What the player types and reads: how text stands for numbers, fleets and cells.

use crate::board::GameConfig;
use crate::config::{
    fields, is_digit, is_space, lemma_number_of_decimal, number, numbers, numeric, objection,
    ship_list, total_len, trim, trim_end, trim_start, unsigned, value, ConfigError,
};
use crate::status::Status;
use crate::text::{column_letter, decimal, digit, grouped, joined, lemma_decimal_digits};
use vstd::prelude::*;

verus! {

/// Decimal notation grows at its end: a digit follows the notation of the number
/// without it. The digits are the ten characters from zero on.
pub proof fn lemma_decimal_grows(n: nat, d: nat)
    requires
        d < 10,
    ensures
        decimal(d).len() == 1,
        decimal(d)[0] as nat == 48 + d,
        n > 0 ==> decimal(10 * n + d) == decimal(n) + decimal(d),
{
    assert(digit(d as int) as nat == 48 + d);
    if n > 0 {
        assert((10 * n + d) / 10 == n && (10 * n + d) % 10 == d);
        assert(decimal(10 * n + d) =~= decimal(n) + decimal(d));
    }
}

/// Numbers joined in two parts are the parts joined, with the separator between
/// them; one number alone is its decimal notation.
pub proof fn lemma_joined_in_parts(a: Seq<usize>, b: Seq<usize>, sep: Seq<char>)
    ensures
        joined(Seq::empty(), sep) == Seq::<char>::empty(),
        a.len() == 1 ==> joined(a, sep) == decimal(a[0] as nat),
        a.len() > 0 && b.len() > 0 ==> joined(a + b, sep) == joined(a, sep) + sep + joined(b, sep),
    decreases b.len(),
{
    if a.len() > 0 && b.len() > 0 {
        let c = b.drop_last();
        assert((a + b).drop_last() =~= a + c);
        assert((a + b).last() == b.last());
        if c.len() == 0 {
            assert(a + c =~= a);
            assert(b[0] == b.last());
        } else {
            lemma_joined_in_parts(a, c, sep);
            assert(joined(a + b, sep) =~= joined(a, sep) + sep + joined(b, sep));
        }
    }
}

/// Grouped digits have a comma at every fourth place from the right, and nowhere
/// else, and do not begin with one.
pub proof fn lemma_commas(d: Seq<char>)
    requires
        forall|i: int| 0 <= i < d.len() ==> #[trigger] d[i] != ',',
    ensures
        grouped(d).len() >= d.len(),
        d.len() > 0 ==> grouped(d)[0] == d[0],
        forall|i: int|
            0 <= i < grouped(d).len() ==> (#[trigger] grouped(d)[i] == ',' <==> (grouped(d).len()
                - 1 - i) % 4 == 3),
    decreases d.len(),
{
    if d.len() > 3 {
        let head = d.take(d.len() - 3);
        lemma_commas(head);
        let g = grouped(head);
        let all = grouped(d);
        assert forall|i: int| 0 <= i < all.len() implies (#[trigger] all[i] == ',' <==> (all.len()
            - 1 - i) % 4 == 3) by {
            if i < g.len() {
                assert(all[i] == g[i]);
                assert(all.len() - 1 - i == (g.len() - 1 - i) + 4);
            } else if i > g.len() {
                assert(all[i] == d[d.len() - 3 + (i - g.len() - 1)]);
            }
        }
    }
}

/// The letters of the columns are the twenty-six from A on, over and over.
pub proof fn lemma_letters(x: int)
    requires
        0 <= x,
    ensures
        0 <= x < 26 ==> column_letter(x) as int == 65 + x,
        column_letter(x + 26) == column_letter(x),
{
    assert((x + 26) % 26 == x % 26);
}

/// The pieces of a text with commas between them.
pub open spec fn glued(pieces: Seq<Seq<char>>) -> Seq<char>
    decreases pieces.len(),
{
    if pieces.len() == 0 {
        Seq::empty()
    } else if pieces.len() == 1 {
        pieces[0]
    } else {
        glued(pieces.drop_last()).push(',') + pieces.last()
    }
}

/// The fields of a text have no comma in them, and with commas between them are
/// the text again.
pub proof fn lemma_fields_glued(s: Seq<char>)
    ensures
        fields(s).len() >= 1,
        glued(fields(s)) == s,
        forall|k: int, i: int|
            #![trigger fields(s)[k][i]]
            0 <= k < fields(s).len() && 0 <= i < fields(s)[k].len() ==> fields(s)[k][i] != ',',
    decreases s.len(),
{
    let all = fields(s);
    if s.len() == 0 {
        assert(glued(all) =~= s);
    } else {
        let t = s.drop_last();
        let prev = fields(t);
        lemma_fields_glued(t);
        assert(s =~= t.push(s.last()));
        if s.last() == ',' {
            assert(all.drop_last() =~= prev);
            assert(glued(all) =~= s);
        } else {
            assert(all.drop_last() =~= prev.drop_last());
            assert(all.last() =~= prev.last().push(s.last()));
            assert(glued(all) =~= s) by {
                if prev.len() == 1 {
                    assert(prev[0] == prev.last());
                    assert(all[0] == all.last());
                }
            }
            assert forall|k: int, i: int|
                #![trigger all[k][i]]
                0 <= k < all.len() && 0 <= i < all[k].len() implies all[k][i] != ',' by {
                if k < prev.len() - 1 {
                    assert(all[k] == prev[k]);
                    assert(prev[k][i] != ',');
                } else {
                    assert(all[k] == prev[k].push(s.last()));
                    if i < prev[k].len() {
                        assert(prev[k][i] != ',');
                    }
                }
            }
        }
    }
}

/// White space by its numbers.
pub open spec fn blank_code(c: int) -> bool {
    9 <= c <= 13 || c == 32 || c == 133 || c == 160 || c == 5760 || 8192 <= c <= 8202 || c == 8232
        || c == 8233 || c == 8239 || c == 8287 || c == 12288
}

/// White space is what has one of these numbers.
pub proof fn lemma_white_space(c: char)
    ensures
        is_space(c) <==> blank_code(c as int),
{
}

/// The text `t` is the part of `s` between the white space at its ends.
pub open spec fn inner_part(s: Seq<char>, t: Seq<char>, i: int, j: int) -> bool {
    &&& 0 <= i <= j <= s.len()
    &&& t == s.subrange(i, j)
    &&& forall|k: int| 0 <= k < i ==> blank_code(#[trigger] s[k] as int)
    &&& forall|k: int| j <= k < s.len() ==> blank_code(#[trigger] s[k] as int)
    &&& i < j ==> !blank_code(s[i] as int) && !blank_code(s[j - 1] as int)
}

/// Trimming takes the white space at both ends away, and nothing else.
pub proof fn lemma_trimmed(s: Seq<char>)
    ensures
        exists|i: int, j: int| inner_part(s, trim(s), i, j),
{
    let t = trim_start(s);
    lemma_start_trimmed(s);
    let i = s.len() - t.len();
    lemma_end_trimmed(t);
    let u = trim_end(t);
    let j = i + u.len();
    assert(u =~= s.subrange(i, j));
    assert forall|k: int| j <= k < s.len() implies blank_code(#[trigger] s[k] as int) by {
        assert(t[k - i] == s[k]);
    }
    if i < j {
        assert(t.len() > 0);
        assert(t[0] == s[i] && u[0] == t[0]);
        assert(u[u.len() - 1] == s[j - 1]);
    }
    assert(inner_part(s, trim(s), i, j));
}

proof fn lemma_start_trimmed(s: Seq<char>)
    ensures
        trim_start(s).len() <= s.len(),
        trim_start(s) == s.skip(s.len() - trim_start(s).len()),
        forall|k: int| 0 <= k < s.len() - trim_start(s).len() ==> is_space(#[trigger] s[k]),
        trim_start(s).len() > 0 ==> !is_space(trim_start(s)[0]),
    decreases s.len(),
{
    if s.len() > 0 && is_space(s[0]) {
        let r = s.drop_first();
        lemma_start_trimmed(r);
        let t = trim_start(r);
        assert(t =~= s.skip(s.len() - t.len()));
        assert forall|k: int| 0 <= k < s.len() - t.len() implies is_space(#[trigger] s[k]) by {
            if k > 0 {
                assert(r[k - 1] == s[k]);
            }
        }
    } else {
        assert(s.skip(0) =~= s);
    }
}

proof fn lemma_end_trimmed(s: Seq<char>)
    ensures
        trim_end(s).len() <= s.len(),
        trim_end(s) == s.take(trim_end(s).len() as int),
        forall|k: int| trim_end(s).len() <= k < s.len() ==> is_space(#[trigger] s[k]),
        trim_end(s).len() > 0 ==> !is_space(trim_end(s).last()),
    decreases s.len(),
{
    if s.len() > 0 && is_space(s.last()) {
        let r = s.drop_last();
        lemma_end_trimmed(r);
        let t = trim_end(r);
        assert(t =~= s.take(t.len() as int));
        assert forall|k: int| t.len() <= k < s.len() implies is_space(#[trigger] s[k]) by {
            if k < r.len() {
                assert(r[k] == s[k]);
            }
        }
    } else {
        assert(s.take(s.len() as int) =~= s);
    }
}

/// A number as it may be typed: a plus sign or none, any number of zeros, and its
/// decimal notation.
pub open spec fn spelled(plus: bool, zeros: nat, n: nat) -> Seq<char> {
    (if plus {
        seq!['+']
    } else {
        Seq::empty()
    }) + Seq::new(zeros, |i: int| '0') + decimal(n)
}

proof fn lemma_value_of_zeros(zeros: nat, d: Seq<char>)
    requires
        forall|i: int| 0 <= i < d.len() ==> is_digit(#[trigger] d[i]),
    ensures
        value(Seq::new(zeros, |i: int| '0') + d) == value(d),
    decreases zeros + d.len(),
{
    let z = Seq::new(zeros, |i: int| '0');
    if d.len() > 0 {
        let e = d.drop_last();
        assert((z + d).drop_last() =~= z + e);
        assert((z + d).last() == d.last());
        assert forall|i: int| 0 <= i < e.len() implies is_digit(#[trigger] e[i]) by {
            assert(e[i] == d[i]);
        }
        lemma_value_of_zeros(zeros, e);
    } else if zeros > 0 {
        let fewer = (zeros - 1) as nat;
        assert((z + d).drop_last() =~= Seq::new(fewer, |i: int| '0') + d);
        assert((z + d).last() == '0');
        lemma_value_of_zeros(fewer, d);
    } else {
        assert(z + d =~= d);
    }
}

proof fn lemma_digits_spelled(d: Seq<char>)
    requires
        numeric(d),
    ensures
        exists|zeros: nat| d == #[trigger] spelled(false, zeros, value(d)),
    decreases d.len(),
{
    let e = d.drop_last();
    let x = (d.last() as nat - '0' as nat) as nat;
    assert(is_digit(d[d.len() - 1]));
    assert(d =~= e.push(d.last()));
    assert(digit(x as int) == d.last());
    if e.len() == 0 {
        assert(value(e) == 0);
        assert(d =~= spelled(false, 0, value(d)));
    } else {
        assert forall|i: int| 0 <= i < e.len() implies is_digit(#[trigger] e[i]) by {
            assert(e[i] == d[i]);
        }
        lemma_digits_spelled(e);
        let zeros = choose|zeros: nat| e == #[trigger] spelled(false, zeros, value(e));
        if value(e) == 0 {
            assert(decimal(0) =~= seq!['0']);
            assert(d =~= spelled(false, zeros + 1, value(d)));
        } else {
            assert((value(e) * 10 + x) / 10 == value(e) && (value(e) * 10 + x) % 10 == x);
            assert(decimal(value(d)) == decimal(value(e)).push(d.last()));
            assert(d =~= spelled(false, zeros, value(d)));
        }
    }
}

/// A text stands for a number exactly when it is one of the ways to type it.
pub proof fn lemma_number_spelled(s: Seq<char>, n: usize)
    ensures
        number(s) == Some(n) <==> exists|plus: bool, zeros: nat|
            s == #[trigger] spelled(plus, zeros, n as nat),
{
    let d = unsigned(s);
    if number(s) == Some(n) {
        lemma_digits_spelled(d);
        let zeros = choose|zeros: nat| d == #[trigger] spelled(false, zeros, value(d));
        if s[0] == '+' {
            assert(s =~= seq!['+'] + d);
            let z = Seq::new(zeros, |i: int| '0');
            assert(d =~= z + decimal(n as nat));
            assert(s =~= spelled(true, zeros, n as nat));
        } else {
            assert(s == spelled(false, zeros, n as nat));
        }
    }
    if exists|plus: bool, zeros: nat| s == #[trigger] spelled(plus, zeros, n as nat) {
        let (plus, zeros) = choose|plus: bool, zeros: nat|
            s == #[trigger] spelled(plus, zeros, n as nat);
        let e = decimal(n as nat);
        let z = Seq::new(zeros, |i: int| '0');
        lemma_decimal_digits(n as nat);
        lemma_number_of_decimal(n);
        assert(numeric(e));
        assert(unsigned(e) == e) by {
            assert('0' <= e[0] <= '9');
        }
        assert(value(e) == n);
        lemma_value_of_zeros(zeros, e);
        assert(forall|i: int| 0 <= i < (z + e).len() ==> is_digit(#[trigger] (z + e)[i]));
        if plus {
            assert(s[0] == '+');
            assert(d =~= z + e);
        } else {
            assert(s =~= z + e);
            assert(is_digit((z + e)[0]));
            assert(d =~= z + e);
        }
    }
}

/// The fields of a text that are not blank.
pub open spec fn entries(s: Seq<char>) -> Seq<Seq<char>> {
    fields(s).filter(|f: Seq<char>| trim(f).len() > 0)
}

proof fn lemma_numbers_of_entries(fs: Seq<Seq<char>>, k: nat)
    requires
        k <= fs.len(),
    ensures
        ({
            let kept = fs.take(k as int).filter(|f: Seq<char>| trim(f).len() > 0);
            match numbers(fs, k) {
                Some(v) => v.len() == kept.len() && forall|i: int|
                    #![trigger kept[i]]
                    0 <= i < kept.len() ==> number(trim(kept[i])) == Some(v[i]),
                None => exists|i: int|
                    0 <= i < kept.len() && number(trim(#[trigger] kept[i])) is None,
            }
        }),
    decreases k,
{
    let pred = |f: Seq<char>| trim(f).len() > 0;
    let kept = fs.take(k as int).filter(pred);
    if k == 0 {
        fs.take(0).lemma_filter_len(pred);
    } else {
        let m = (k - 1) as nat;
        lemma_numbers_of_entries(fs, m);
        let less = fs.take(m as int).filter(pred);
        let f = fs[k - 1];
        assert(fs.take(k as int) =~= fs.take(m as int).push(f));
        fs.take(m as int).lemma_filter_push(f, pred);
        match numbers(fs, m) {
            None => {
                let i = choose|i: int|
                    0 <= i < less.len() && number(trim(#[trigger] less[i])) is None;
                assert(kept[i] == less[i]);
            },
            Some(v) => {
                if pred(f) {
                    assert(kept == less.push(f));
                    assert(kept[kept.len() - 1] == f);
                    if let Some(n) = number(trim(f)) {
                        let w = v.push(n);
                        assert forall|i: int|
                            #![trigger kept[i]]
                            0 <= i < kept.len() implies number(trim(kept[i])) == Some(w[i]) by {
                            if i < less.len() {
                                assert(kept[i] == less[i]);
                            }
                        }
                    }
                }
            },
        }
    }
}

/// A text lists the numbers of its fields in turn, blank fields left out; it lists
/// nothing when some field that is not blank is no number.
pub proof fn lemma_listed_ships(s: Seq<char>)
    ensures
        match ship_list(s) {
            Some(v) => v.len() == entries(s).len() && forall|i: int|
                #![trigger entries(s)[i]]
                0 <= i < v.len() ==> number(trim(entries(s)[i])) == Some(v[i]),
            None => exists|i: int|
                0 <= i < entries(s).len() && number(trim(#[trigger] entries(s)[i])) is None,
        },
{
    lemma_numbers_of_entries(fields(s), fields(s).len());
    assert(fields(s).take(fields(s).len() as int) =~= fields(s));
}

/// The length of a fleet is that of its parts together, and of one ship its own.
pub proof fn lemma_total_in_parts(a: Seq<usize>, b: Seq<usize>)
    ensures
        total_len(Seq::empty()) == 0,
        a.len() == 1 ==> total_len(a) == a[0],
        total_len(a + b) == total_len(a) + total_len(b),
    decreases b.len(),
{
    if a.len() == 1 {
        assert(total_len(a.drop_last()) == 0);
    }
    if b.len() == 0 {
        assert(a + b =~= a);
    } else {
        lemma_total_in_parts(a, b.drop_last());
        assert((a + b).drop_last() =~= a + b.drop_last());
        assert((a + b).last() == b.last());
    }
}

/// Every ship has at least one cell.
pub open spec fn all_real(v: Seq<usize>) -> bool {
    forall|i: int| 0 <= i < v.len() ==> #[trigger] v[i] >= 1
}

/// Every ship fits on the board along one side or the other.
pub open spec fn all_short(width: int, height: int, v: Seq<usize>) -> bool {
    forall|i: int| 0 <= i < v.len() ==> #[trigger] v[i] <= width || v[i] <= height
}

/// What is objected to, and in which order: a list that is none, then a fleet
/// without ships or with a ship of no cells, then a ship longer than both sides,
/// then more cells than the board has.
pub proof fn lemma_objections(width: int, height: int, ships: Option<Seq<usize>>)
    ensures
        ships is None <==> objection(width, height, ships) == Some(ConfigError::NotNumbers),
        ships matches Some(v) ==> {
            let o = objection(width, height, ships);
            &&& o == Some(ConfigError::NoShips) <==> v.len() == 0 || !all_real(v)
            &&& o == Some(ConfigError::ShipTooLong) <==> v.len() > 0 && all_real(v) && !all_short(
                width,
                height,
                v,
            )
            &&& o == Some(ConfigError::FleetTooLarge) <==> v.len() > 0 && all_real(v) && all_short(
                width,
                height,
                v,
            ) && total_len(v) > width * height
            &&& o is None <==> v.len() > 0 && all_real(v) && all_short(width, height, v)
                && total_len(v) <= width * height
        },
{
    if let Some(v) = ships {
        if v.contains(0) {
            let i = choose|i: int| 0 <= i < v.len() && v[i] == 0;
            assert(!all_real(v));
        } else {
            assert forall|i: int| 0 <= i < v.len() implies #[trigger] v[i] >= 1 by {
                assert(v.contains(v[i]));
            }
        }
        if exists|i: int| 0 <= i < v.len() && #[trigger] v[i] > width && v[i] > height {
            let i = choose|i: int| 0 <= i < v.len() && #[trigger] v[i] > width && v[i] > height;
            assert(!(v[i] <= width || v[i] <= height));
            assert(!all_short(width, height, v));
        } else {
            assert(all_short(width, height, v));
        }
    }
}

/// The rules that a game may have: ships, each with cells and no longer than the
/// larger side, and together no more cells than the board.
pub proof fn lemma_playable_rules(cfg: &GameConfig)
    ensures
        cfg.playable() <==> cfg.ships@.len() > 0 && all_real(cfg.ships@) && all_short(
            cfg.width as int,
            cfg.height as int,
            cfg.ships@,
        ) && total_len(cfg.ships@) <= cfg.width * cfg.height,
{
    lemma_objections(cfg.width as int, cfg.height as int, Some(cfg.ships@));
}

/// What is said of each outcome; numbers are said in decimal notation.
pub proof fn lemma_sentences(n: usize, total: usize, len: usize, shots: u32)
    ensures
        Status::SetupHelp.sentence()
            == "Setup: click to place each ship (right-click or R to rotate), or hit Randomize."@,
        Status::AssistantHelp.sentence()
            == "Assistant mode: fire at the recommended cell, then mark the real result."@,
        Status::OffBoard.sentence() == "Ship would run off the board there."@,
        Status::BadSpot.sentence() == "Invalid spot — overlap or too close to another ship."@,
        Status::CannotFitRest.sentence() == "Couldn't fit the rest — clear and try again."@,
        Status::Cleared.sentence() == "Cleared. Place your ships."@,
        Status::CannotRandomize.sentence()
            == "Couldn't place the fleet randomly — adjust the configuration."@,
        Status::Playing.sentence() == "Playing — fire at the brightest cell."@,
        Status::Hit.sentence() == "Hit!"@,
        Status::Miss.sentence() == "Miss."@,
        (Status::Placed { next: n, total, len }).sentence() == "Placed. Next: ship "@ + decimal(
            n as nat,
        ) + "/"@ + decimal(total as nat) + " (length "@ + decimal(len as nat) + ")."@,
        (Status::SunkShip { len }).sentence() == "Hit — and sunk a length-"@ + decimal(len as nat)
            + " ship!"@,
        (Status::Solved { shots }).sentence() == "Solved! All ships sunk in "@ + decimal(
            shots as nat,
        ) + " shots."@,
        (Status::MarkedSunk { len }).sentence() == "Marked a length-"@ + decimal(len as nat)
            + " ship sunk."@,
        (Status::MarkedNoShip { len }).sentence() == "Marked "@ + decimal(len as nat)
            + " cells sunk (no length-"@ + decimal(len as nat) + " ship in the fleet?)."@,
        (Status::Unsunk { len }).sentence() == "Un-sunk a length-"@ + decimal(len as nat)
            + " ship."@,
{
}

} // verus!
