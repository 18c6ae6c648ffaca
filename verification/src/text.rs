//! Decimal text: printing integers, grouping digits by thousands and
//! reading unsigned integers and booleans the way `str::parse` does.
use vstd::prelude::*;

verus! {

/// The character that writes the decimal digit `d`.
pub open spec fn digit_char(d: int) -> char {
    if d == 0 {
        '0'
    } else if d == 1 {
        '1'
    } else if d == 2 {
        '2'
    } else if d == 3 {
        '3'
    } else if d == 4 {
        '4'
    } else if d == 5 {
        '5'
    } else if d == 6 {
        '6'
    } else if d == 7 {
        '7'
    } else if d == 8 {
        '8'
    } else {
        '9'
    }
}

/// The decimal representation of `n`, without sign or leading zeros.
pub open spec fn decimal(n: nat) -> Seq<char>
    decreases n,
{
    if n < 10 {
        seq![digit_char(n as int)]
    } else {
        decimal(n / 10) + seq![digit_char((n % 10) as int)]
    }
}

/// A decimal digit string split into groups of three from the right,
/// the groups separated by commas ("1234567" becomes "1,234,567").
pub open spec fn group_thousands(s: Seq<char>) -> Seq<char>
    decreases s.len(),
{
    if s.len() <= 3 {
        s
    } else {
        group_thousands(s.subrange(0, s.len() - 3)) + seq![','] + s.subrange(
            s.len() - 3,
            s.len() as int,
        )
    }
}

/// An integer written with thousands separators, a minus sign in front
/// of negative values.
pub open spec fn formatted_number(v: int) -> Seq<char> {
    if v < 0 {
        seq!['-'] + group_thousands(decimal((-v) as nat))
    } else {
        group_thousands(decimal(v as nat))
    }
}

fn digit_str(d: u64) -> (s: &'static str)
    requires
        d < 10,
    ensures
        s@ == seq![digit_char(d as int)],
{
    proof {
        reveal_strlit("0");
        reveal_strlit("1");
        reveal_strlit("2");
        reveal_strlit("3");
        reveal_strlit("4");
        reveal_strlit("5");
        reveal_strlit("6");
        reveal_strlit("7");
        reveal_strlit("8");
        reveal_strlit("9");
    }
    if d == 0 {
        "0"
    } else if d == 1 {
        "1"
    } else if d == 2 {
        "2"
    } else if d == 3 {
        "3"
    } else if d == 4 {
        "4"
    } else if d == 5 {
        "5"
    } else if d == 6 {
        "6"
    } else if d == 7 {
        "7"
    } else if d == 8 {
        "8"
    } else {
        "9"
    }
}

/// Appends the decimal representation of `n` to `out`.
pub fn push_decimal(out: &mut String, n: u64)
    ensures
        final(out)@ == old(out)@ + decimal(n as nat),
    decreases n,
{
    if n >= 10 {
        push_decimal(out, n / 10);
    }
    let ghost before = out@;
    out.append(digit_str(n % 10));
    proof {
        if n >= 10 {
            assert(out@ =~= old(out)@ + decimal(n as nat));
        } else {
            assert(out@ =~= old(out)@ + decimal(n as nat));
        }
    }
}

/// The decimal representation of `n`.
pub fn decimal_string(n: u64) -> (s: String)
    ensures
        s@ == decimal(n as nat),
{
    let mut s = String::new();
    push_decimal(&mut s, n);
    assert(s@ =~= decimal(n as nat));
    s
}

proof fn lemma_decimal_nonempty(n: nat)
    ensures
        decimal(n).len() >= 1,
    decreases n,
{
    if n >= 10 {
        lemma_decimal_nonempty(n / 10);
    }
}

proof fn lemma_group_step(s: Seq<char>, i: int)
    requires
        1 <= i,
        i + 3 <= s.len(),
    ensures
        group_thousands(s.subrange(0, i + 3)) == group_thousands(s.subrange(0, i)) + seq![',']
            + s.subrange(i, i + 3),
{
    let next = s.subrange(0, i + 3);
    assert(next.subrange(0, next.len() - 3) =~= s.subrange(0, i));
    assert(next.subrange(next.len() - 3, next.len() as int) =~= s.subrange(i, i + 3));
}

/// Groups a nonempty digit string by thousands.
fn group_digits(digits: &str) -> (out: String)
    requires
        digits@.len() >= 1,
    ensures
        out@ == group_thousands(digits@),
{
    let n = digits.unicode_len();
    let first: usize = if n % 3 == 0 {
        3
    } else {
        n % 3
    };
    let mut out = String::from_str(digits.substring_char(0, first));
    let mut i: usize = first;
    while i < n
        invariant
            n == digits@.len(),
            1 <= i <= n,
            (n - i) % 3 == 0,
            out@ == group_thousands(digits@.subrange(0, i as int)),
        decreases n - i,
    {
        let ghost before = out@;
        out.append(",");
        out.append(digits.substring_char(i, i + 3));
        proof {
            reveal_strlit(",");
            lemma_group_step(digits@, i as int);
            assert(out@ =~= before + seq![','] + digits@.subrange(i as int, i + 3));
        }
        i = i + 3;
    }
    assert(digits@.subrange(0, n as int) =~= digits@);
    out
}

/// Writes an integer with commas between groups of three digits and a
/// leading minus sign when it is negative: `-1234567` becomes
/// `"-1,234,567"`. `i64::MIN` has no absolute value in `i64` and is
/// refused, as the absolute value taken before printing overflows there.
pub fn format_number(val: i64) -> (s: String)
    requires
        val != i64::MIN,
    ensures
        s@ == formatted_number(val as int),
{
    let abs_val: u64 = if val < 0 {
        (-val) as u64
    } else {
        val as u64
    };
    let digits = decimal_string(abs_val);
    proof {
        lemma_decimal_nonempty(abs_val as nat);
    }
    let grouped = group_digits(digits.as_str());
    if val < 0 {
        let mut s = String::from_str("-");
        s.append(grouped.as_str());
        proof {
            reveal_strlit("-");
            assert(s@ =~= formatted_number(val as int));
        }
        s
    } else {
        grouped
    }
}

/// Whether `c` is one of the ASCII digits `0` to `9`.
pub open spec fn is_digit(c: char) -> bool {
    48 <= (c as int) <= 57
}

/// The value of the ASCII digit `c`.
pub open spec fn digit_value(c: char) -> int {
    (c as int) - 48
}

/// Whether every character of `s` is an ASCII digit.
pub open spec fn all_digits(s: Seq<char>) -> bool {
    forall|i: int| 0 <= i < s.len() ==> is_digit(#[trigger] s[i])
}

/// The number that the digit string `s` writes in base ten.
pub open spec fn digits_value(s: Seq<char>) -> int
    decreases s.len(),
{
    if s.len() == 0 {
        0
    } else {
        digits_value(s.drop_last()) * 10 + digit_value(s.last())
    }
}

/// The digits of an unsigned number text: one leading `+` is dropped.
pub open spec fn unsigned_digits(s: Seq<char>) -> Seq<char> {
    if s.len() > 0 && s[0] == '+' {
        s.subrange(1, s.len() as int)
    } else {
        s
    }
}

/// What `str::parse::<u32>` gives for the text `s`: an optional `+`,
/// then one or more ASCII digits whose value fits in `u32`; anything else
/// is refused.
pub open spec fn parsed_u32(s: Seq<char>) -> Option<u32> {
    let d = unsigned_digits(s);
    if d.len() > 0 && all_digits(d) && digits_value(d) <= u32::MAX {
        Some(digits_value(d) as u32)
    } else {
        None
    }
}

proof fn lemma_digits_value_nonneg(s: Seq<char>)
    requires
        all_digits(s),
    ensures
        digits_value(s) >= 0,
    decreases s.len(),
{
    if s.len() > 0 {
        assert(all_digits(s.drop_last()));
        lemma_digits_value_nonneg(s.drop_last());
        assert(is_digit(s[s.len() - 1]));
    }
}

/// Reads an unsigned 32-bit number as `str::parse::<u32>` does.
pub fn parse_u32(s: &str) -> (r: Option<u32>)
    ensures
        r == parsed_u32(s@),
{
    let n = s.unicode_len();
    let start: usize = if n > 0 && s.get_char(0) == '+' {
        1
    } else {
        0
    };
    let ghost d = unsigned_digits(s@);
    assert(d =~= s@.subrange(start as int, n as int));
    if start == n {
        return None;
    }
    let mut acc: u64 = 0;
    let mut overflow = false;
    let mut valid = true;
    let mut i: usize = start;
    while i < n
        invariant
            n == s@.len(),
            start <= i <= n,
            d == s@.subrange(start as int, n as int),
            valid == all_digits(d.subrange(0, i - start)),
            valid ==> (if overflow {
                digits_value(d.subrange(0, i - start)) > u32::MAX
            } else {
                acc == digits_value(d.subrange(0, i - start)) && acc <= u32::MAX
            }),
        decreases n - i,
    {
        let ghost pre = d.subrange(0, i - start);
        let ghost post = d.subrange(0, i + 1 - start);
        assert(post.drop_last() =~= pre);
        assert(post.last() == s@[i as int]);
        let c = s.get_char(i);
        let code = c as u32;
        if code < 48 || code > 57 {
            valid = false;
            assert(!is_digit(post[post.len() - 1]));
        } else {
            if valid {
                assert(all_digits(post));
                if !overflow {
                    let next = acc * 10 + (code - 48) as u64;
                    if next > 4294967295 {
                        overflow = true;
                    } else {
                        acc = next;
                    }
                } else {
                    proof {
                        lemma_digits_value_nonneg(pre);
                    }
                }
            }
        }
        i = i + 1;
    }
    assert(d.subrange(0, n - start) =~= d);
    if valid && !overflow {
        Some(acc as u32)
    } else {
        None
    }
}

/// What `str::parse::<bool>` gives for the text `s`.
pub open spec fn parsed_bool(s: Seq<char>) -> Option<bool> {
    if s == "true"@ {
        Some(true)
    } else if s == "false"@ {
        Some(false)
    } else {
        None
    }
}

/// Whether the text `s` holds exactly the characters of `word`.
pub fn same_text(s: &str, word: &str) -> (r: bool)
    ensures
        r == (s@ == word@),
{
    let n = s.unicode_len();
    let m = word.unicode_len();
    if n != m {
        return false;
    }
    let mut i: usize = 0;
    while i < n
        invariant
            n == s@.len(),
            n == word@.len(),
            i <= n,
            forall|j: int| 0 <= j < i ==> s@[j] == word@[j],
        decreases n - i,
    {
        if s.get_char(i) != word.get_char(i) {
            return false;
        }
        i = i + 1;
    }
    assert(s@ =~= word@);
    true
}

/// Reads a boolean as `str::parse::<bool>` does: exactly `true` or `false`.
pub fn parse_bool(s: &str) -> (r: Option<bool>)
    ensures
        r == parsed_bool(s@),
{
    if same_text(s, "true") {
        Some(true)
    } else if same_text(s, "false") {
        Some(false)
    } else {
        None
    }
}


/// `s` with its commas left out.
pub open spec fn strip_commas(s: Seq<char>) -> Seq<char>
    decreases s.len(),
{
    if s.len() == 0 {
        s
    } else if s.last() == ',' {
        strip_commas(s.drop_last())
    } else {
        strip_commas(s.drop_last()).push(s.last())
    }
}

proof fn lemma_strip_concat(a: Seq<char>, b: Seq<char>)
    ensures
        strip_commas(a + b) == strip_commas(a) + strip_commas(b),
    decreases b.len(),
{
    if b.len() == 0 {
        assert(a + b =~= a);
        assert(strip_commas(a) + strip_commas(b) =~= strip_commas(a));
    } else {
        lemma_strip_concat(a, b.drop_last());
        assert((a + b).drop_last() =~= a + b.drop_last());
        if b.last() != ',' {
            assert(strip_commas(a) + strip_commas(b) =~= (strip_commas(a) + strip_commas(
                b.drop_last(),
            )).push(b.last()));
        }
    }
}

proof fn lemma_strip_digits(s: Seq<char>)
    requires
        all_digits(s),
    ensures
        strip_commas(s) == s,
    decreases s.len(),
{
    if s.len() > 0 {
        assert(all_digits(s.drop_last()));
        assert(is_digit(s[s.len() - 1]));
        lemma_strip_digits(s.drop_last());
        assert(s.drop_last().push(s.last()) =~= s);
    }
}

proof fn lemma_digit_char(d: int)
    requires
        0 <= d < 10,
    ensures
        is_digit(digit_char(d)),
        digit_value(digit_char(d)) == d,
        digit_char(d) != '+',
{
    assert('0' as int == 48);
    assert('9' as int == 57);
    if d == 0 {
    } else if d == 1 {
        assert('1' as int == 49);
    } else if d == 2 {
        assert('2' as int == 50);
    } else if d == 3 {
        assert('3' as int == 51);
    } else if d == 4 {
        assert('4' as int == 52);
    } else if d == 5 {
        assert('5' as int == 53);
    } else if d == 6 {
        assert('6' as int == 54);
    } else if d == 7 {
        assert('7' as int == 55);
    } else if d == 8 {
        assert('8' as int == 56);
    } else {
    }
}

proof fn lemma_decimal_digits(n: nat)
    ensures
        all_digits(decimal(n)),
        digits_value(decimal(n)) == n,
        decimal(n).len() >= 1,
        decimal(n)[0] != '+',
    decreases n,
{
    if n >= 10 {
        lemma_decimal_digits(n / 10);
        lemma_digit_char((n % 10) as int);
        let d = decimal(n);
        assert(d.drop_last() =~= decimal(n / 10));
        assert(d.last() == digit_char((n % 10) as int));
        assert(d[0] == decimal(n / 10)[0]);
        assert(digits_value(d) == digits_value(decimal(n / 10)) * 10 + (n % 10));
    } else {
        lemma_digit_char(n as int);
        let d = decimal(n);
        assert(d.drop_last() =~= Seq::<char>::empty());
        assert(digits_value(d.drop_last()) == 0);
    }
}

/// Reading back a printed number gives the number: for every `n` that
/// fits in a `u32`, `parse_u32` of `decimal_string(n)` is `Some(n)`.
pub proof fn law_decimal_parses_back(n: u32)
    ensures
        parsed_u32(decimal(n as nat)) == Some(n),
{
    lemma_decimal_digits(n as nat);
}

/// Grouping by thousands only adds commas: leaving the commas out of
/// `group_thousands(s)` gives back the digits `s`, and the result has one
/// comma for every full group of three digits after the first group.
pub proof fn law_grouping_keeps_digits(s: Seq<char>)
    requires
        all_digits(s),
        s.len() >= 1,
    ensures
        strip_commas(group_thousands(s)) == s,
        group_thousands(s).len() == s.len() + (s.len() - 1) / 3,
    decreases s.len(),
{
    if s.len() <= 3 {
        lemma_strip_digits(s);
    } else {
        let head = s.subrange(0, s.len() - 3);
        let tail = s.subrange(s.len() - 3, s.len() as int);
        assert(all_digits(head));
        assert(all_digits(tail));
        law_grouping_keeps_digits(head);
        lemma_strip_digits(tail);
        lemma_strip_concat(group_thousands(head) + seq![','], tail);
        lemma_strip_concat(group_thousands(head), seq![',']);
        let comma = seq![','];
        assert(comma.last() == ',');
        assert(comma.drop_last() =~= Seq::<char>::empty());
        assert(strip_commas(comma.drop_last()) =~= Seq::<char>::empty());
        assert(strip_commas(comma) =~= Seq::<char>::empty());
        assert(head + tail =~= s);
        assert(strip_commas(group_thousands(s)) =~= head + tail);
    }
}

/// In `group_thousands(s)` the commas stand exactly where a multiple of
/// three digits follows: counting from the end, every fourth character is
/// a comma and no other is.
pub proof fn law_grouping_commas_every_three(s: Seq<char>)
    requires
        all_digits(s),
    ensures
        forall|i: int|
            0 <= i < group_thousands(s).len() ==> (#[trigger] group_thousands(s)[i] == ',' <==> (
            group_thousands(s).len() - i) % 4 == 0),
    decreases s.len(),
{
    let g = group_thousands(s);
    if s.len() <= 3 {
        assert forall|i: int| 0 <= i < g.len() implies (#[trigger] g[i] == ',' <==> (g.len() - i) % 4
            == 0) by {
            assert(is_digit(s[i]));
        }
    } else {
        let head = s.subrange(0, s.len() - 3);
        let tail = s.subrange(s.len() - 3, s.len() as int);
        assert(all_digits(head));
        law_grouping_commas_every_three(head);
        let gh = group_thousands(head);
        assert(g == gh + seq![','] + tail);
        assert forall|i: int| 0 <= i < g.len() implies (#[trigger] g[i] == ',' <==> (g.len() - i) % 4
            == 0) by {
            if i < gh.len() {
                assert(g[i] == gh[i]);
                assert((g.len() - i) % 4 == (gh.len() - i) % 4);
            } else if i == gh.len() {
            } else {
                let j = i - gh.len() - 1;
                assert(g[i] == tail[j]);
                assert(is_digit(s[s.len() - 3 + j]));
            }
        }
    }
}

/// Every printed number is its sign (for negative values) followed by its
/// digits in groups of three from the right: without the minus sign and
/// the commas, `format_number(v)` is the decimal representation of |v|.
pub proof fn law_formatted_number_digits(v: int)
    ensures
        ({
            let t = formatted_number(v);
            let body = if v < 0 {
                t.subrange(1, t.len() as int)
            } else {
                t
            };
            &&& v < 0 ==> t.len() >= 1 && t[0] == '-'
            &&& strip_commas(body) == decimal(if v < 0 {
                (-v) as nat
            } else {
                v as nat
            })
        }),
{
    let a: nat = if v < 0 {
        (-v) as nat
    } else {
        v as nat
    };
    lemma_decimal_digits(a);
    law_grouping_keeps_digits(decimal(a));
    if v < 0 {
        let t = formatted_number(v);
        assert(t.subrange(1, t.len() as int) =~= group_thousands(decimal(a)));
    }
}

} // verus!
