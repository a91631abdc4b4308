//! Small text building blocks: decimal numbers, padding, joining.

use vstd::prelude::*;
use vstd::string::*;

verus! {

/// The decimal digit `d`.
pub open spec fn digit(d: nat) -> char
    recommends
        d < 10,
{
    (48 + d) as char
}

/// `n` written in decimal, without leading zeros.
pub open spec fn decimal_text(n: nat) -> Seq<char>
    decreases n,
{
    if n < 10 {
        seq![digit(n)]
    } else {
        decimal_text(n / 10).push(digit(n % 10))
    }
}

/// `n` characters `c`.
pub open spec fn run_of(c: char, n: nat) -> Seq<char> {
    Seq::new(n, |_i: int| c)
}

/// `n` blanks.
pub open spec fn blanks(n: nat) -> Seq<char> {
    run_of(' ', n)
}

/// What `s` lacks to be `width` characters long.
pub open spec fn shortfall(s: Seq<char>, width: nat) -> nat {
    if s.len() < width {
        (width - s.len()) as nat
    } else {
        0
    }
}

/// `s` aligned right in at least `width` characters.
pub open spec fn right_aligned(s: Seq<char>, width: nat) -> Seq<char> {
    blanks(shortfall(s, width)) + s
}

/// `s` aligned left in at least `width` characters.
pub open spec fn left_aligned(s: Seq<char>, width: nat) -> Seq<char> {
    s + blanks(shortfall(s, width))
}

/// `n`, with a leading zero where it has only one digit.
pub open spec fn two_digits(n: nat) -> Seq<char> {
    if n < 10 {
        seq!['0'] + decimal_text(n)
    } else {
        decimal_text(n)
    }
}

/// The texts of a list of strings.
pub open spec fn texts(v: Seq<String>) -> Seq<Seq<char>> {
    Seq::new(v.len(), |i: int| v[i]@)
}

/// The text of an optional string.
pub open spec fn text_of(s: Option<String>) -> Option<Seq<char>> {
    match s {
        Some(t) => Some(t@),
        None => None,
    }
}

/// `parts` with `sep` between each two of them.
pub open spec fn joined(parts: Seq<Seq<char>>, sep: Seq<char>) -> Seq<char>
    decreases parts.len(),
{
    if parts.len() == 0 {
        seq![]
    } else if parts.len() == 1 {
        parts[0]
    } else {
        joined(parts.drop_last(), sep) + sep + parts.last()
    }
}

/// Unicode's white space.
pub open spec fn white_space(c: char) -> bool {
    ||| '\u{9}' <= c <= '\u{d}'
    ||| c == '\u{20}'
    ||| c == '\u{85}'
    ||| c == '\u{a0}'
    ||| c == '\u{1680}'
    ||| '\u{2000}' <= c <= '\u{200a}'
    ||| c == '\u{2028}'
    ||| c == '\u{2029}'
    ||| c == '\u{202f}'
    ||| c == '\u{205f}'
    ||| c == '\u{3000}'
}

fn digit_text(d: u64) -> (r: &'static str)
    requires
        d < 10,
    ensures
        r@ == seq![digit(d as nat)],
{
    proof {
        reveal_strlit("0");
        reveal_strlit("1");
        reveal_strlit("2");
        reveal_strlit("3");
        reveal_strlit("4");
        reveal_strlit("5");
        reveal_strlit("6");
        reveal_strlit("7");
        reveal_strlit("8");
        reveal_strlit("9");
    }
    match d {
        0 => "0",
        1 => "1",
        2 => "2",
        3 => "3",
        4 => "4",
        5 => "5",
        6 => "6",
        7 => "7",
        8 => "8",
        _ => "9",
    }
}

/// Writes `n` in decimal.
pub fn decimal(n: u64) -> (r: String)
    ensures
        r@ == decimal_text(n as nat),
    decreases n,
{
    if n < 10 {
        digit_text(n).to_owned()
    } else {
        let mut s = decimal(n / 10);
        s.append(digit_text(n % 10));
        proof {
            assert(s@ =~= decimal_text((n / 10) as nat).push(digit((n % 10) as nat)));
        }
        s
    }
}

/// Repeats a one-character text.
pub fn repeat(unit: &str, n: usize) -> (r: String)
    requires
        unit@.len() == 1,
    ensures
        r@ == run_of(unit@[0], n as nat),
{
    let mut s = String::new();
    let mut i: usize = 0;
    while i < n
        invariant
            i <= n,
            unit@.len() == 1,
            s@ =~= run_of(unit@[0], i as nat),
        decreases n - i,
    {
        s.append(unit);
        i += 1;
    }
    s
}

/// Writes `n` blanks.
pub fn spaces(n: usize) -> (r: String)
    ensures
        r@ == blanks(n as nat),
{
    proof {
        reveal_strlit(" ");
    }
    repeat(" ", n)
}

/// Aligns `s` right in at least `width` characters.
pub fn pad_left(s: &str, width: usize) -> (r: String)
    ensures
        r@ == right_aligned(s@, width as nat),
{
    let len: usize = s.unicode_len();
    let mut r = spaces(width.saturating_sub(len));
    r.append(s);
    r
}

/// Aligns `s` left in at least `width` characters.
pub fn pad_right(s: &str, width: usize) -> (r: String)
    ensures
        r@ == left_aligned(s@, width as nat),
{
    let len: usize = s.unicode_len();
    let mut r = s.to_owned();
    let gap = spaces(width.saturating_sub(len));
    r.append(gap.as_str());
    r
}

/// Writes `n` with at least two digits.
pub fn padded_decimal(n: u64) -> (r: String)
    ensures
        r@ == two_digits(n as nat),
{
    let d = decimal(n);
    if n < 10 {
        proof {
            reveal_strlit("0");
        }
        let mut r = "0".to_owned();
        r.append(d.as_str());
        proof {
            assert(r@ =~= seq!['0'] + decimal_text(n as nat));
        }
        r
    } else {
        d
    }
}

/// Joins `parts` with `sep`.
pub fn join(parts: &Vec<String>, sep: &str) -> (r: String)
    ensures
        r@ == joined(texts(parts@), sep@),
{
    let mut s = String::new();
    let mut i: usize = 0;
    while i < parts.len()
        invariant
            i <= parts@.len(),
            s@ == joined(texts(parts@).take(i as int), sep@),
        decreases parts.len() - i,
    {
        if i > 0 {
            s.append(sep);
        }
        s.append(parts[i].as_str());
        proof {
            let all = texts(parts@);
            let next = all.take(i + 1);
            assert(next.drop_last() =~= all.take(i as int));
            assert(next.last() == parts@[i as int]@);
            if i == 0 {
                assert(s@ =~= parts@[0]@);
            }
        }
        i += 1;
    }
    proof {
        assert(texts(parts@).take(i as int) =~= texts(parts@));
    }
    s
}

/// Whether two texts are the same.
pub fn same(a: &str, b: &str) -> (r: bool)
    ensures
        r == (a@ == b@),
{
    a.to_owned() == b.to_owned()
}

/// Whether `c` is Unicode white space.
pub fn is_white_space(c: char) -> (r: bool)
    ensures
        r == white_space(c),
{
    ('\u{9}' <= c && c <= '\u{d}') || c == '\u{20}' || c == '\u{85}' || c == '\u{a0}' || c
        == '\u{1680}' || ('\u{2000}' <= c && c <= '\u{200a}') || c == '\u{2028}' || c
        == '\u{2029}' || c == '\u{202f}' || c == '\u{205f}' || c == '\u{3000}'
}

/// The number that a text of digits stands for.
pub open spec fn value_of(s: Seq<char>) -> int
    decreases s.len(),
{
    if s.len() == 0 {
        0
    } else {
        10 * value_of(s.drop_last()) + (s.last() as int - 48)
    }
}

proof fn lemma_decimal(n: nat)
    ensures
        value_of(decimal_text(n)) == n,
        decimal_text(n).len() > 0,
        forall|i: int|
            0 <= i < decimal_text(n).len() ==> '0' <= #[trigger] decimal_text(n)[i] <= '9',
        decimal_text(n)[0] == '0' ==> n == 0,
        n < 10 <==> decimal_text(n).len() == 1,
    decreases n,
{
    reveal_with_fuel(value_of, 2);
    let d = decimal_text(n);
    if n < 10 {
        assert(d.drop_last() =~= Seq::<char>::empty());
    } else {
        lemma_decimal(n / 10);
        assert(d.drop_last() =~= decimal_text(n / 10));
        assert(d[0] == decimal_text(n / 10)[0]);
    }
}

/// A number can be read back from its text, which has digits only and no more than it
/// needs.
pub proof fn decimals_read_back(n: u64, r: String)
    requires
        call_ensures(decimal, (n,), r),
    ensures
        value_of(r@) == n,
        r@.len() > 0,
        forall|i: int| 0 <= i < r@.len() ==> '0' <= #[trigger] r@[i] <= '9',
        r@[0] == '0' ==> r@.len() == 1,
{
    lemma_decimal(n as nat);
}

/// The same holds with a leading zero, which is there only to make two digits.
pub proof fn padded_decimals_read_back(n: u64, r: String)
    requires
        call_ensures(padded_decimal, (n,), r),
    ensures
        value_of(r@) == n,
        r@.len() >= 2,
        r@.len() == 2 <==> n < 100,
        forall|i: int| 0 <= i < r@.len() ==> '0' <= #[trigger] r@[i] <= '9',
{
    lemma_decimal(n as nat);
    lemma_decimal((n / 10) as nat);
    lemma_decimal((n / 100) as nat);
    reveal_with_fuel(value_of, 3);
    reveal_with_fuel(decimal_text, 3);
    if n < 10 {
        assert(r@.drop_last() =~= seq!['0']);
        assert(seq!['0'].drop_last() =~= Seq::<char>::empty());
    }
}

/// A repeated character stands there as often as asked, and nothing else does.
pub proof fn runs_repeat_their_unit(unit: &str, n: usize, r: String)
    requires
        unit@.len() == 1,
        call_ensures(repeat, (unit, n), r),
    ensures
        r@.len() == n,
        forall|i: int| 0 <= i < n ==> #[trigger] r@[i] == unit@[0],
{
}

/// Aligning adds blanks on the one side only, and no more than the width asks for.
pub proof fn alignment_only_adds_blanks(s: &str, width: usize, left: String, right: String)
    requires
        call_ensures(pad_left, (s, width), left),
        call_ensures(pad_right, (s, width), right),
    ensures
        left@.len() == right@.len(),
        left@.len() == if s@.len() < width {
            width as nat
        } else {
            s@.len()
        },
        left@.skip(left@.len() - s@.len()) == s@,
        right@.take(s@.len() as int) == s@,
        forall|i: int| 0 <= i < left@.len() - s@.len() ==> #[trigger] left@[i] == ' ',
        forall|i: int| s@.len() <= i < right@.len() ==> #[trigger] right@[i] == ' ',
{
    assert(left@.skip(left@.len() - s@.len()) =~= s@);
    assert(right@.take(s@.len() as int) =~= s@);
}

proof fn lemma_joined(a: Seq<Seq<char>>, b: Seq<Seq<char>>, sep: Seq<char>)
    requires
        a.len() > 0,
        b.len() > 0,
    ensures
        joined(a + b, sep) == joined(a, sep) + sep + joined(b, sep),
    decreases b.len(),
{
    let all = a + b;
    assert(all.last() == b.last());
    if b.len() == 1 {
        assert(all.drop_last() =~= a);
    } else {
        assert(all.drop_last() =~= a + b.drop_last());
        lemma_joined(a, b.drop_last(), sep);
        assert(joined(all, sep) =~= joined(a, sep) + sep + joined(b, sep));
    }
}

/// Joining two lists one behind the other is joining each, with the separator between;
/// one text stays as it is, and no text gives none.
pub proof fn joins_join(
    a: Vec<String>,
    b: Vec<String>,
    all: Vec<String>,
    sep: &str,
    r: String,
    s: String,
    t: String,
)
    requires
        all@ == a@ + b@,
        call_ensures(join, (&a, sep), r),
        call_ensures(join, (&b, sep), s),
        call_ensures(join, (&all, sep), t),
    ensures
        a@.len() > 0 && b@.len() > 0 ==> t@ == r@ + sep@ + s@,
        a@.len() == 0 ==> t@ == s@ && r@.len() == 0,
        a@.len() == 1 ==> r@ == a@[0]@,
{
    assert(texts(all@) =~= texts(a@) + texts(b@));
    if a@.len() > 0 && b@.len() > 0 {
        lemma_joined(texts(a@), texts(b@), sep@);
    }
    if a@.len() == 0 {
        assert(texts(all@) =~= texts(b@));
    }
}

} // verus!
