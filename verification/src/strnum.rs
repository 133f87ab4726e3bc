//! Decimal rendering and parsing of unsigned integers, at the character
//! level.  Fragment files are named by their index, the wire keys embed
//! that index, and the JSON records carry the numeric fields this way.

use vstd::prelude::*;
use vstd::string::*;

verus! {

/// The character for one decimal digit value.
pub open spec fn digit_char(d: nat) -> char {
    if d == 0 {
        '0'
    } else if d == 1 {
        '1'
    } else if d == 2 {
        '2'
    } else if d == 3 {
        '3'
    } else if d == 4 {
        '4'
    } else if d == 5 {
        '5'
    } else if d == 6 {
        '6'
    } else if d == 7 {
        '7'
    } else if d == 8 {
        '8'
    } else {
        '9'
    }
}

/// Whether `c` is a decimal digit.
pub open spec fn is_digit(c: char) -> bool {
    '0' <= c && c <= '9'
}

/// The value of one digit character.
pub open spec fn digit_val(c: char) -> nat {
    (c as nat - '0' as nat) as nat
}

/// The canonical decimal rendering of `n`: no sign, no leading zeros,
/// a single `0` for zero.
pub open spec fn dec_digits(n: nat) -> Seq<char>
    decreases n,
{
    if n < 10 {
        seq![digit_char(n)]
    } else {
        dec_digits(n / 10).push(digit_char(n % 10))
    }
}

/// The numeric value of a digit string, most significant digit first.
pub open spec fn dec_value(s: Seq<char>) -> nat
    decreases s.len(),
{
    if s.len() == 0 {
        0
    } else {
        dec_value(s.drop_last()) * 10 + digit_val(s.last())
    }
}

/// Whether every character of `s` is a decimal digit.
pub open spec fn all_digits(s: Seq<char>) -> bool {
    forall|i: int| 0 <= i < s.len() ==> is_digit(#[trigger] s[i])
}

/// Rendering produces only digits, at least one, and a leading zero
/// only for the value zero itself.
pub proof fn lemma_dec_digits_shape(n: nat)
    ensures
        dec_digits(n).len() >= 1,
        all_digits(dec_digits(n)),
        dec_digits(n)[0] == '0' <==> n == 0,
        n == 0 ==> dec_digits(n) =~= seq!['0'],
    decreases n,
{
    if n < 10 {
        assert(dec_digits(n) =~= seq![digit_char(n)]);
    } else {
        lemma_dec_digits_shape(n / 10);
        assert(dec_digits(n) =~= dec_digits(n / 10).push(digit_char(n % 10)));
        assert(n / 10 > 0);
    }
}

/// Rendering then evaluating gives the value back.
pub proof fn lemma_dec_roundtrip(n: nat)
    ensures
        dec_value(dec_digits(n)) == n,
    decreases n,
{
    if n < 10 {
        let s = dec_digits(n);
        assert(s == seq![digit_char(n)]);
        assert(s.len() == 1 && s.last() == digit_char(n));
        assert(s.drop_last() =~= Seq::<char>::empty());
        assert(dec_value(s.drop_last()) == 0);
        assert(digit_val(digit_char(n)) == n);
    } else {
        lemma_dec_roundtrip(n / 10);
        let s = dec_digits(n);
        let pre = dec_digits(n / 10);
        assert(s == pre.push(digit_char(n % 10)));
        assert(s.drop_last() =~= pre);
        assert(s.last() == digit_char(n % 10));
        assert(digit_val(digit_char(n % 10)) == n % 10);
        assert(dec_value(s) == dec_value(s.drop_last()) * 10 + digit_val(s.last()));
        assert(dec_value(s) == (n / 10) * 10 + n % 10);
        vstd::arithmetic::div_mod::lemma_fundamental_div_mod(n as int, 10);
    }
}

/// The one-character string for a digit value.
fn digit_str(d: u64) -> (r: &'static str)
    requires
        d < 10,
    ensures
        r@ =~= seq![digit_char(d as nat)],
{
    proof {
        reveal_strlit("0");
        reveal_strlit("1");
        reveal_strlit("2");
        reveal_strlit("3");
        reveal_strlit("4");
        reveal_strlit("5");
        reveal_strlit("6");
        reveal_strlit("7");
        reveal_strlit("8");
        reveal_strlit("9");
    }
    if d == 0 {
        "0"
    } else if d == 1 {
        "1"
    } else if d == 2 {
        "2"
    } else if d == 3 {
        "3"
    } else if d == 4 {
        "4"
    } else if d == 5 {
        "5"
    } else if d == 6 {
        "6"
    } else if d == 7 {
        "7"
    } else if d == 8 {
        "8"
    } else {
        "9"
    }
}

/// Renders `n` in decimal, canonically.
pub fn u64_to_dec(n: u64) -> (s: String)
    ensures
        s@ == dec_digits(n as nat),
    decreases n,
{
    if n < 10 {
        String::from_str(digit_str(n))
    } else {
        let mut s = u64_to_dec(n / 10);
        s.append(digit_str(n % 10));
        proof {
            assert(s@ =~= dec_digits(n as nat / 10).push(digit_char(n as nat % 10)));
        }
        s
    }
}

/// The first position at or after `i` that does not hold a digit.
pub open spec fn spec_scan_digits(s: Seq<char>, i: int) -> int
    decreases s.len() - i,
{
    if i < 0 || i >= s.len() || !is_digit(s[i]) {
        i
    } else {
        spec_scan_digits(s, i + 1)
    }
}

/// The scan stays within bounds and everything it passed is a digit.
pub proof fn lemma_scan_digits(s: Seq<char>, i: int)
    requires
        0 <= i <= s.len(),
    ensures
        i <= spec_scan_digits(s, i) <= s.len(),
        all_digits(s.subrange(i, spec_scan_digits(s, i))),
        spec_scan_digits(s, i) < s.len() ==> !is_digit(s[spec_scan_digits(s, i)]),
    decreases s.len() - i,
{
    if i < s.len() && is_digit(s[i]) {
        lemma_scan_digits(s, i + 1);
        let j = spec_scan_digits(s, i);
        assert(j == spec_scan_digits(s, i + 1));
        assert forall|k: int| 0 <= k < s.subrange(i, j).len() implies is_digit(
            #[trigger] s.subrange(i, j)[k],
        ) by {
            if k == 0 {
            } else {
                assert(s.subrange(i + 1, j)[k - 1] == s.subrange(i, j)[k]);
            }
        }
    } else {
        assert(s.subrange(i, i) =~= Seq::<char>::empty());
    }
}

/// Reads the digit run starting at `start`: returns the position of the
/// first non-digit, and the run's value, or `None` on an empty run or a
/// value beyond `u64::MAX`.
pub fn parse_dec_run(v: &Vec<char>, start: usize) -> (r: (usize, Option<u64>))
    requires
        start <= v@.len(),
    ensures
        r.0 == spec_scan_digits(v@, start as int),
        start <= r.0 <= v@.len(),
        ({
            let run = v@.subrange(start as int, r.0 as int);
            &&& (r.1 matches Some(x) ==> r.0 > start && dec_value(run) == x)
            &&& (r.1 is None <==> (r.0 == start || dec_value(run) > u64::MAX))
        }),
{
    let ghost s = v@;
    let mut i: usize = start;
    let mut acc: u64 = 0;
    let mut of: bool = false;
    proof {
        assert(s.subrange(start as int, start as int) =~= Seq::<char>::empty());
    }
    while i < v.len() && '0' <= v[i] && v[i] <= '9'
        invariant
            start <= i <= s.len(),
            s == v@,
            all_digits(s.subrange(start as int, i as int)),
            spec_scan_digits(s, i as int) == spec_scan_digits(s, start as int),
            !of ==> acc == dec_value(s.subrange(start as int, i as int)),
            of ==> dec_value(s.subrange(start as int, i as int)) > u64::MAX,
        decreases s.len() - i,
    {
        let c = v[i];
        let d: u64 = (c as u32 as u64) - ('0' as u32 as u64);
        proof {
            let run = s.subrange(start as int, i as int);
            let run2 = s.subrange(start as int, i + 1 as int);
            assert(run2.drop_last() =~= run);
            assert(run2.last() == s[i as int]);
            assert(digit_val(c) == d);
            if !of {
                if acc > (u64::MAX - d) / 10 {
                    assert(acc * 10 + d > u64::MAX) by (nonlinear_arith)
                        requires
                            acc > (u64::MAX - d) / 10,
                            d < 10,
                    ;
                } else {
                    assert(acc * 10 + d <= u64::MAX) by (nonlinear_arith)
                        requires
                            acc <= (u64::MAX - d) / 10,
                            d < 10,
                    ;
                }
            } else {
                assert(dec_value(run2) == dec_value(run) * 10 + d);
                assert(dec_value(run) * 10 + d > u64::MAX) by (nonlinear_arith)
                    requires
                        dec_value(run) > u64::MAX,
                ;
            }
        }
        if !of {
            if acc > (u64::MAX - d) / 10 {
                of = true;
            } else {
                acc = acc * 10 + d;
            }
        }
        i = i + 1;
    }
    proof {
        if i < s.len() {
            assert(!is_digit(s[i as int]));
        }
    }
    if i == start {
        (i, None)
    } else if of {
        (i, None)
    } else {
        (i, Some(acc))
    }
}

/// Collects the characters of `s` into a vector.
pub fn str_chars(s: &str) -> (v: Vec<char>)
    ensures
        v@ == s@,
{
    let n = s.unicode_len();
    let mut v: Vec<char> = Vec::new();
    let mut i: usize = 0;
    while i < n
        invariant
            n == s@.len(),
            0 <= i <= n,
            v@ =~= s@.subrange(0, i as int),
        decreases n - i,
    {
        v.push(s.get_char(i));
        i = i + 1;
    }
    proof {
        assert(v@ =~= s@);
    }
    v
}

/// The fragment index a file name stands for: the value of a nonempty
/// all-digit name, within `u64`.
pub open spec fn frag_index_of(s: Seq<char>) -> Option<u64> {
    if s.len() > 0 && all_digits(s) && dec_value(s) <= u64::MAX {
        Some(dec_value(s) as u64)
    } else {
        None
    }
}

/// Relies on `String::push`: appends exactly the one character.
#[verifier::external_body]
pub(crate) fn push_char(s: &mut String, c: char)
    ensures
        final(s)@ == old(s)@.push(c),
{
    s.push(c);
}

/// Builds the string holding `v[from..to]`.
pub fn chars_to_string(v: &Vec<char>, from: usize, to: usize) -> (s: String)
    requires
        from <= to <= v@.len(),
    ensures
        s@ == v@.subrange(from as int, to as int),
{
    let mut s = String::new();
    let mut i = from;
    proof {
        assert(s@ =~= v@.subrange(from as int, from as int));
    }
    while i < to
        invariant
            from <= i <= to <= v@.len(),
            s@ =~= v@.subrange(from as int, i as int),
        decreases to - i,
    {
        push_char(&mut s, v[i]);
        proof {
            assert(s@ =~= v@.subrange(from as int, i + 1));
        }
        i = i + 1;
    }
    s
}

/// Parses an entire string as a decimal fragment index: every character
/// must be a digit, there must be at least one, and the value must fit.
/// This is how the files in a fragment directory are recognised.
pub fn parse_frag_index(name: &str) -> (r: Option<u64>)
    ensures
        (r matches Some(x) ==> name@.len() > 0 && all_digits(name@) && dec_value(name@) == x),
        r is None <==> (name@.len() == 0 || !all_digits(name@) || dec_value(name@) > u64::MAX),
{
    let v = str_chars(name);
    let (end, val) = parse_dec_run(&v, 0);
    proof {
        lemma_scan_digits(v@, 0);
        if end == v@.len() {
            assert(v@.subrange(0, end as int) =~= v@);
        } else {
            assert(!is_digit(v@[end as int]));
        }
    }
    if end == v.len() {
        val
    } else {
        None
    }
}

} // verus!
