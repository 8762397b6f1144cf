//! Text: comparison, numbers, and lines of a message head.

use vstd::prelude::*;
use vstd::string::StringExecFns;

verus! {

/// The characters of `s`.
fn chars_of(s: &str) -> (r: Vec<char>)
    ensures
        r@ == s@,
{
    let mut r: Vec<char> = Vec::new();
    for c in it: s.chars()
        invariant
            it.seq() == s@,
            r@ == s@.take(it.index()),
    {
        r.push(c);
        assert(r@ == s@.take(it.index() + 1));
    }
    assert(s@.take(s@.len() as int) == s@);
    r
}

/// `b` stands in `a` at position `at`.
fn stands_at(a: &Vec<char>, b: &Vec<char>, at: usize) -> (r: bool)
    requires
        at + b@.len() <= a@.len(),
    ensures
        r == (a@.subrange(at as int, at + b@.len()) == b@),
{
    let mut i: usize = 0;
    while i < b.len()
        invariant
            i <= b@.len(),
            at + b@.len() <= a@.len(),
            a@.subrange(at as int, at + i) == b@.take(i as int),
        decreases b@.len() - i,
    {
        let ghost part = a@.subrange(at as int, at + b@.len());
        assert(a.len() == a@.len());
        if a[at + i] != b[i] {
            assert(part[i as int] != b@[i as int]);
            return false;
        }
        assert(a@.subrange(at as int, at + i + 1) == a@.subrange(at as int, at + i).push(
            a@[at + i],
        ));
        assert(b@.take(i + 1) == b@.take(i as int).push(b@[i as int]));
        i = i + 1;
    }
    assert(b@.take(b@.len() as int) == b@);
    true
}

/// `part` is the start of `s`.
pub open spec fn is_start(part: Seq<char>, s: Seq<char>) -> bool {
    part.len() <= s.len() && s.take(part.len() as int) == part
}

/// `part` is the end of `s`.
pub open spec fn is_end(part: Seq<char>, s: Seq<char>) -> bool {
    part.len() <= s.len() && s.skip(s.len() - part.len()) == part
}

/// Text starts with what stands in front of the rest of it, and with nothing else.
pub proof fn start_stands_in_front(part: Seq<char>, s: Seq<char>, rest: Seq<char>)
    ensures
        is_start(part, part + rest),
        is_start(part, s) <==> exists|tail: Seq<char>| s == #[trigger] (part + tail),
{
    assert((part + rest).take(part.len() as int) == part);
    if is_start(part, s) {
        assert(s == part + s.skip(part.len() as int));
    }
    if exists|tail: Seq<char>| s == #[trigger] (part + tail) {
        let tail = choose|tail: Seq<char>| s == #[trigger] (part + tail);
        assert((part + tail).take(part.len() as int) == part);
    }
}

/// Text ends with what stands behind the rest of it, and with nothing else.
pub proof fn end_stands_behind(part: Seq<char>, s: Seq<char>, rest: Seq<char>)
    ensures
        is_end(part, rest + part),
        is_end(part, s) <==> exists|front: Seq<char>| s == #[trigger] (front + part),
{
    assert((rest + part).skip(rest.len() as int) == part);
    if is_end(part, s) {
        assert(s == s.take(s.len() - part.len()) + part);
    }
    if exists|front: Seq<char>| s == #[trigger] (front + part) {
        let front = choose|front: Seq<char>| s == #[trigger] (front + part);
        assert((front + part).skip(front.len() as int) == part);
    }
}

/// Whether `s` starts with `part`.
pub fn starts_with(s: &str, part: &str) -> (r: bool)
    ensures
        r == is_start(part@, s@),
{
    let a = chars_of(s);
    let b = chars_of(part);
    if b.len() > a.len() {
        return false;
    }
    assert(s@.take(part@.len() as int) == a@.subrange(0, b@.len() as int));
    stands_at(&a, &b, 0)
}

/// Whether `s` ends with `part`.
pub fn ends_with(s: &str, part: &str) -> (r: bool)
    ensures
        r == is_end(part@, s@),
{
    let a = chars_of(s);
    let b = chars_of(part);
    if b.len() > a.len() {
        return false;
    }
    let at: usize = a.len() - b.len();
    assert(s@.skip(at as int) == a@.subrange(at as int, at + b@.len()));
    stands_at(&a, &b, at)
}

/// Whether two texts are equal.
pub fn same(s: &str, t: &str) -> (r: bool)
    ensures
        r == (s@ == t@),
{
    let a = chars_of(s);
    let b = chars_of(t);
    if a.len() != b.len() {
        return false;
    }
    assert(s@ == a@.subrange(0, b@.len() as int));
    stands_at(&a, &b, 0)
}

/// The digit of `d`.
pub open spec fn digit(d: nat) -> char {
    (0x30 + d) as u8 as char
}

/// `n` in decimal, without leading zeros.
pub open spec fn decimal(n: nat) -> Seq<char>
    decreases n,
{
    if n < 10 {
        seq![digit(n)]
    } else {
        decimal(n / 10).push(digit(n % 10))
    }
}

/// The number that decimal digits stand for.
pub open spec fn number(s: Seq<char>) -> int
    decreases s.len(),
{
    if s.len() == 0 {
        0
    } else {
        number(s.drop_last()) * 10 + (s.last() as int - '0' as int)
    }
}

/// A number in decimal consists of digits, reads back as the number, and has a zero in
/// front only if it is zero.
pub proof fn decimal_reads_back(n: nat)
    ensures
        decimal(n).len() > 0,
        forall|i: int| 0 <= i < decimal(n).len() ==> '0' <= #[trigger] decimal(n)[i] <= '9',
        number(decimal(n)) == n,
        decimal(n)[0] == '0' ==> n == 0,
    decreases n,
{
    let s = decimal(n);
    if n < 10 {
        reveal_with_fuel(number, 2);
        assert(s.drop_last() == Seq::<char>::empty());
    } else {
        decimal_reads_back(n / 10);
        assert(s.drop_last() == decimal(n / 10));
        assert(s[0] == decimal(n / 10)[0]);
    }
}

fn digit_str(d: u64) -> (r: &'static str)
    requires
        d < 10,
    ensures
        r@ == seq![digit(d as nat)],
{
    proof {
        reveal_strlit("0");
        reveal_strlit("1");
        reveal_strlit("2");
        reveal_strlit("3");
        reveal_strlit("4");
        reveal_strlit("5");
        reveal_strlit("6");
        reveal_strlit("7");
        reveal_strlit("8");
        reveal_strlit("9");
    }
    match d {
        0 => "0",
        1 => "1",
        2 => "2",
        3 => "3",
        4 => "4",
        5 => "5",
        6 => "6",
        7 => "7",
        8 => "8",
        _ => "9",
    }
}

/// `n` in decimal.
pub fn format_decimal(n: u64) -> (r: String)
    ensures
        r@ == decimal(n as nat),
    decreases n,
{
    let mut r: String = if n < 10 {
        String::new()
    } else {
        format_decimal(n / 10)
    };
    r.append(digit_str(n % 10));
    assert(r@ == decimal(n as nat));
    r
}

/// A line of two parts.
pub fn line(a: &str, b: &str) -> (r: String)
    ensures
        r@ == a@ + b@,
{
    let mut r = String::from_str(a);
    r.append(b);
    r
}

/// The lines, with a line end between each two.
pub open spec fn joined(lines: Seq<Seq<char>>) -> Seq<char>
    decreases lines.len(),
{
    if lines.len() == 0 {
        Seq::empty()
    } else if lines.len() == 1 {
        lines[0]
    } else {
        joined(lines.drop_last()) + "\r\n"@ + lines.last()
    }
}

/// One line stays as it is, and another line comes behind a line end.
pub proof fn lines_follow_each_other(lines: Seq<Seq<char>>, l: Seq<char>)
    ensures
        joined(seq![l]) == l,
        lines.len() > 0 ==> joined(lines.push(l)) == joined(lines) + seq!['\r', '\n'] + l,
{
    reveal_strlit("\r\n");
    assert("\r\n"@ == seq!['\r', '\n']);
    assert(lines.push(l).drop_last() == lines);
}

/// The contents of lines.
pub open spec fn lines_view(lines: Seq<String>) -> Seq<Seq<char>> {
    lines.map_values(|l: String| l@)
}

/// Joins lines by line ends.
pub fn join_lines(lines: &Vec<String>) -> (r: String)
    ensures
        r@ == joined(lines_view(lines@)),
{
    let mut r = String::new();
    let mut i: usize = 0;
    let ghost all = lines_view(lines@);
    while i < lines.len()
        invariant
            i <= lines@.len(),
            all == lines_view(lines@),
            r@ == joined(all.take(i as int)),
        decreases lines@.len() - i,
    {
        if i > 0 {
            r.append("\r\n");
        }
        r.append(lines[i].as_str());
        proof {
            let next = all.take(i + 1);
            assert(next.drop_last() == all.take(i as int));
            assert(next.last() == lines@[i as int]@);
            assert(i == 0 ==> r@ == next[0]);
        }
        i = i + 1;
    }
    assert(all.take(all.len() as int) == all);
    r
}

} // verus!
