//! Numbers, fleets and coordinates as text.

use crate::order::{descending, longest_first};
use vstd::prelude::*;

verus! {

/// The decimal digits.
pub open spec fn digit(d: int) -> char {
    seq!['0', '1', '2', '3', '4', '5', '6', '7', '8', '9'][d]
}

/// A number in decimal notation.
pub open spec fn decimal(n: nat) -> Seq<char>
    decreases n,
{
    if n < 10 {
        seq![digit(n as int)]
    } else {
        decimal(n / 10).push(digit((n % 10) as int))
    }
}

/// Numbers in decimal notation with a separator between them.
pub open spec fn joined(v: Seq<usize>, sep: Seq<char>) -> Seq<char>
    decreases v.len(),
{
    if v.len() == 0 {
        Seq::empty()
    } else if v.len() == 1 {
        decimal(v[0] as nat)
    } else {
        joined(v.drop_last(), sep) + sep + decimal(v.last() as nat)
    }
}

/// Digits in groups of three, counted from the right, with commas between them.
pub open spec fn grouped(d: Seq<char>) -> Seq<char>
    decreases d.len(),
{
    if d.len() <= 3 {
        d
    } else {
        grouped(d.take(d.len() - 3)).push(',') + d.skip(d.len() - 3)
    }
}

/// The letter of a column; the letters repeat after the twenty-sixth.
pub open spec fn column_letter(x: int) -> char {
    seq![
        'A', 'B', 'C', 'D', 'E', 'F', 'G', 'H', 'I', 'J', 'K', 'L', 'M', 'N', 'O', 'P', 'Q', 'R',
        'S', 'T', 'U', 'V', 'W', 'X', 'Y', 'Z',
    ][x % 26]
}

/// A digit as text.
fn digit_str(d: u64) -> (r: &'static str)
    requires
        d < 10,
    ensures
        r@ == seq![digit(d as int)],
{
    proof {
        reveal_strlit("0");
        reveal_strlit("1");
        reveal_strlit("2");
        reveal_strlit("3");
        reveal_strlit("4");
        reveal_strlit("5");
        reveal_strlit("6");
        reveal_strlit("7");
        reveal_strlit("8");
        reveal_strlit("9");
    }
    let r = match d {
        0 => "0",
        1 => "1",
        2 => "2",
        3 => "3",
        4 => "4",
        5 => "5",
        6 => "6",
        7 => "7",
        8 => "8",
        _ => "9",
    };
    assert(r@ =~= seq![digit(d as int)]);
    r
}

/// A column's letter as text.
fn letter_str(x: usize) -> (r: &'static str)
    ensures
        r@ == seq![column_letter(x as int)],
{
    proof {
        reveal_strlit("A");
        reveal_strlit("B");
        reveal_strlit("C");
        reveal_strlit("D");
        reveal_strlit("E");
        reveal_strlit("F");
        reveal_strlit("G");
        reveal_strlit("H");
        reveal_strlit("I");
        reveal_strlit("J");
        reveal_strlit("K");
        reveal_strlit("L");
        reveal_strlit("M");
        reveal_strlit("N");
        reveal_strlit("O");
        reveal_strlit("P");
        reveal_strlit("Q");
        reveal_strlit("R");
        reveal_strlit("S");
        reveal_strlit("T");
        reveal_strlit("U");
        reveal_strlit("V");
        reveal_strlit("W");
        reveal_strlit("X");
        reveal_strlit("Y");
        reveal_strlit("Z");
    }
    let r = match x % 26 {
        0 => "A",
        1 => "B",
        2 => "C",
        3 => "D",
        4 => "E",
        5 => "F",
        6 => "G",
        7 => "H",
        8 => "I",
        9 => "J",
        10 => "K",
        11 => "L",
        12 => "M",
        13 => "N",
        14 => "O",
        15 => "P",
        16 => "Q",
        17 => "R",
        18 => "S",
        19 => "T",
        20 => "U",
        21 => "V",
        22 => "W",
        23 => "X",
        24 => "Y",
        _ => "Z",
    };
    assert(r@ =~= seq![column_letter(x as int)]);
    r
}

/// Appends a number in decimal notation.
pub fn push_decimal(out: &mut String, n: u64)
    ensures
        final(out)@ == old(out)@ + decimal(n as nat),
    decreases n,
{
    if n >= 10 {
        push_decimal(out, n / 10);
    }
    out.append(digit_str(n % 10));
    assert(out@ =~= old(out)@ + decimal(n as nat));
}

proof fn lemma_decimal_thousands(n: nat)
    ensures
        n < 1000 ==> decimal(n).len() <= 3,
        n >= 1000 ==> decimal(n) == decimal(n / 1000) + seq![
            digit(((n / 100) % 10) as int),
            digit(((n / 10) % 10) as int),
            digit((n % 10) as int),
        ],
{
    reveal_with_fuel(decimal, 4);
    if n >= 1000 {
        assert(n / 10 / 10 == n / 100 && n / 100 / 10 == n / 1000);
        assert(decimal(n / 100) == decimal(n / 1000).push(digit(((n / 100) % 10) as int)));
        assert(decimal(n / 10) == decimal(n / 100).push(digit(((n / 10) % 10) as int)));
        assert(decimal(n) =~= decimal(n / 1000) + seq![
            digit(((n / 100) % 10) as int),
            digit(((n / 10) % 10) as int),
            digit((n % 10) as int),
        ]);
    }
}

/// Appends a number in decimal notation, its digits grouped.
fn push_grouped(out: &mut String, n: u64)
    ensures
        final(out)@ == old(out)@ + grouped(decimal(n as nat)),
    decreases n,
{
    proof {
        lemma_decimal_thousands(n as nat);
    }
    if n < 1000 {
        push_decimal(out, n);
    } else {
        push_grouped(out, n / 1000);
        proof {
            reveal_strlit(",");
        }
        out.append(",");
        out.append(digit_str((n / 100) % 10));
        out.append(digit_str((n / 10) % 10));
        out.append(digit_str(n % 10));
        proof {
            let d = decimal(n as nat);
            let head = decimal((n / 1000) as nat);
            lemma_decimal_digits((n / 1000) as nat);
            assert(d.take(d.len() - 3) =~= head);
            assert(out@ =~= old(out)@ + grouped(d));
        }
    }
}

/// A number with its digits in groups of three.
pub fn group_digits(n: u64) -> (r: String)
    ensures
        r@ == grouped(decimal(n as nat)),
{
    let mut out = String::new();
    push_grouped(&mut out, n);
    assert(out@ =~= grouped(decimal(n as nat)));
    out
}

/// The numbers in decimal notation with the separator between them.
pub fn join_numbers(v: &[usize], sep: &str) -> (r: String)
    ensures
        r@ == joined(v@, sep@),
{
    let mut out = String::new();
    let mut i: usize = 0;
    assert(v@.take(0) =~= Seq::empty());
    while i < v.len()
        invariant
            i <= v@.len(),
            out@ == joined(v@.take(i as int), sep@),
        decreases v@.len() - i,
    {
        if i > 0 {
            out.append(sep);
        }
        push_decimal(&mut out, v[i] as u64);
        proof {
            assert(v@.take(i + 1).drop_last() =~= v@.take(i as int));
            assert(out@ =~= joined(v@.take(i + 1), sep@));
        }
        i += 1;
    }
    assert(v@.take(i as int) =~= v@);
    out
}

/// The lengths of the ships, longest first, or "none".
pub fn fleet_str(ships: &[usize]) -> (r: String)
    ensures
        r@ == (if ships@.len() == 0 {
            "none"@
        } else {
            joined(descending(ships@), ", "@)
        }),
{
    if ships.len() == 0 {
        return String::from_str("none");
    }
    let sorted = longest_first(ships);
    join_numbers(sorted.as_slice(), ", ")
}

/// A1-style coordinate (column letter + 1-based row).
pub fn coord_name(x: usize, y: usize) -> (r: String)
    requires
        y < usize::MAX,
    ensures
        r@ == seq![column_letter(x as int)] + decimal((y + 1) as nat),
{
    let mut out = String::from_str(letter_str(x));
    push_decimal(&mut out, (y + 1) as u64);
    out
}

proof fn lemma_keeps_all(s: Seq<char>, p: spec_fn(char) -> bool)
    requires
        forall|i: int| 0 <= i < s.len() ==> p(#[trigger] s[i]),
    ensures
        s.filter(p) == s,
    decreases s.len(),
{
    if s.len() > 0 {
        let t = s.drop_last();
        lemma_keeps_all(t, p);
        assert(s =~= t.push(s.last()));
        t.lemma_filter_push(s.last(), p);
    } else {
        s.lemma_filter_len(p);
        assert(s.filter(p) =~= s);
    }
}

/// Grouping adds nothing but commas: without them the digits are as before.
pub proof fn lemma_grouping(d: Seq<char>)
    requires
        forall|i: int| 0 <= i < d.len() ==> #[trigger] d[i] != ',',
    ensures
        grouped(d).filter(|c: char| c != ',') == d,
    decreases d.len(),
{
    let p = |c: char| c != ',';
    if d.len() <= 3 {
        lemma_keeps_all(d, p);
    } else {
        let head = d.take(d.len() - 3);
        let tail = d.skip(d.len() - 3);
        lemma_grouping(head);
        grouped(head).lemma_filter_push(',', p);
        Seq::filter_distributes_over_add(grouped(head).push(','), tail, p);
        lemma_keeps_all(tail, p);
        assert(head + tail =~= d);
    }
}

/// Decimal notation is made of digits, at least one.
pub proof fn lemma_decimal_digits(n: nat)
    ensures
        decimal(n).len() >= 1,
        forall|i: int|
            0 <= i < decimal(n).len() ==> '0' <= #[trigger] decimal(n)[i] <= '9',
    decreases n,
{
    if n >= 10 {
        lemma_decimal_digits(n / 10);
    }
}

} // verus!
