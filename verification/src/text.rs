use vstd::prelude::*;

verus! {

/// Whether `c` is one of the decimal digits `0` to `9`.
pub open spec fn is_digit(c: char) -> bool {
    '0' <= c && c <= '9'
}

/// The value of a decimal digit.
pub open spec fn digit_value(c: char) -> int {
    c as int - '0' as int
}

/// The decimal digit of value `d` (for `0 <= d < 10`).
pub open spec fn digit_char(d: int) -> char {
    if d == 0 {
        '0'
    } else if d == 1 {
        '1'
    } else if d == 2 {
        '2'
    } else if d == 3 {
        '3'
    } else if d == 4 {
        '4'
    } else if d == 5 {
        '5'
    } else if d == 6 {
        '6'
    } else if d == 7 {
        '7'
    } else if d == 8 {
        '8'
    } else {
        '9'
    }
}

/// The decimal notation of `n`, without leading zeros.
pub open spec fn digits(n: nat) -> Seq<char>
    decreases n,
{
    if n < 10 {
        seq![digit_char(n as int)]
    } else {
        digits(n / 10).push(digit_char(n as int % 10))
    }
}

/// The decimal notation of `v`, with a leading `-` when it is negative.
pub open spec fn signed_text(v: int) -> Seq<char> {
    if v < 0 {
        seq!['-'] + digits((-v) as nat)
    } else {
        digits(v as nat)
    }
}

/// Whether every character of `s` is a decimal digit.
pub open spec fn all_digits(s: Seq<char>) -> bool {
    forall|i: int| 0 <= i < s.len() ==> is_digit(#[trigger] s[i])
}

/// The value of a string of decimal digits.
pub open spec fn digits_value(s: Seq<char>) -> int
    decreases s.len(),
{
    if s.len() == 0 {
        0
    } else {
        digits_value(s.drop_last()) * 10 + digit_value(s.last())
    }
}

/// The integer written in `s`: an optional `+` or `-` sign followed by one or more
/// decimal digits, and nothing else.
pub open spec fn parse_integer(s: Seq<char>) -> Option<int> {
    if s.len() == 0 {
        None
    } else {
        let neg = s[0] == '-';
        let body = if s[0] == '-' || s[0] == '+' {
            s.drop_first()
        } else {
            s
        };
        if body.len() == 0 || !all_digits(body) {
            None
        } else if neg {
            Some(-digits_value(body))
        } else {
            Some(digits_value(body))
        }
    }
}

/// The `i8` written in `s`, if `s` is an integer in the range of `i8`.
pub open spec fn parse_i8_text(s: Seq<char>) -> Option<i8> {
    match parse_integer(s) {
        Some(v) => if -128 <= v <= 127 {
            Some(v as i8)
        } else {
            None
        },
        None => None,
    }
}

proof fn lemma_digits_props(n: nat)
    ensures
        digits(n).len() >= 1,
        all_digits(digits(n)),
        digits_value(digits(n)) == n,
    decreases n,
{
    if n < 10 {
        assert(digits(n).drop_last() =~= Seq::<char>::empty());
        assert(digits_value(Seq::<char>::empty()) == 0);
        assert(digit_value(digit_char(n as int)) == n);
        assert(digits(n).last() == digit_char(n as int));
    } else {
        lemma_digits_props(n / 10);
        let d = digits(n);
        assert(d.drop_last() =~= digits(n / 10));
        assert(digit_value(digit_char(n as int % 10)) == n % 10);
        assert(d.last() == digit_char(n as int % 10));
        assert(digits_value(d) == digits_value(digits(n / 10)) * 10 + n % 10);
        assert forall|i: int| 0 <= i < d.len() implies is_digit(#[trigger] d[i]) by {
            if i < d.len() - 1 {
                assert(d[i] == digits(n / 10)[i]);
            }
        }
    }
}

/// Reading back the decimal text of an `i8` gives the same `i8`.
pub proof fn lemma_parse_signed_text(v: i8)
    ensures
        parse_i8_text(signed_text(v as int)) == Some(v),
{
    let t = signed_text(v as int);
    if v < 0 {
        lemma_digits_props((-v) as nat);
        assert(t.drop_first() =~= digits((-v) as nat));
        assert(is_digit(digits((-v) as nat)[0]));
    } else {
        lemma_digits_props(v as nat);
        assert(is_digit(t[0]));
    }
}

proof fn lemma_digits_value_mono(s: Seq<char>, k: int)
    requires
        0 <= k <= s.len(),
        all_digits(s),
    ensures
        digits_value(s.take(k)) <= digits_value(s),
        0 <= digits_value(s.take(k)),
    decreases s.len() - k,
{
    if k < s.len() {
        lemma_digits_value_mono(s, k + 1);
        assert(s.take(k + 1).drop_last() =~= s.take(k));
        assert(is_digit(s.take(k + 1).last()));
        assert(s.take(k + 1).last() == s[k]);
    } else {
        assert(s.take(k) =~= s);
        lemma_digits_value_nonneg(s);
    }
}

proof fn lemma_digits_value_nonneg(s: Seq<char>)
    requires
        all_digits(s),
    ensures
        0 <= digits_value(s),
    decreases s.len(),
{
    if s.len() > 0 {
        assert(all_digits(s.drop_last())) by {
            assert forall|i: int| 0 <= i < s.drop_last().len() implies is_digit(
                #[trigger] s.drop_last()[i],
            ) by {
                assert(s.drop_last()[i] == s[i]);
            }
        }
        lemma_digits_value_nonneg(s.drop_last());
        assert(is_digit(s[s.len() - 1]));
    }
}

fn digit_str(d: u16) -> (r: &'static str)
    requires
        d < 10,
    ensures
        r@ == seq![digit_char(d as int)],
{
    proof {
        reveal_strlit("0");
        reveal_strlit("1");
        reveal_strlit("2");
        reveal_strlit("3");
        reveal_strlit("4");
        reveal_strlit("5");
        reveal_strlit("6");
        reveal_strlit("7");
        reveal_strlit("8");
        reveal_strlit("9");
    }
    if d == 0 {
        "0"
    } else if d == 1 {
        "1"
    } else if d == 2 {
        "2"
    } else if d == 3 {
        "3"
    } else if d == 4 {
        "4"
    } else if d == 5 {
        "5"
    } else if d == 6 {
        "6"
    } else if d == 7 {
        "7"
    } else if d == 8 {
        "8"
    } else {
        "9"
    }
}

/// The decimal text of `v`, as `Display` writes it.
pub fn i8_text(v: i8) -> (r: String)
    ensures
        r@ == signed_text(v as int),
{
    let mut s = String::new();
    let n: u16 = if v < 0 {
        proof {
            reveal_strlit("-");
        }
        s.append("-");
        (0i16 - v as i16) as u16
    } else {
        v as u16
    };
    let ghost start = s@;
    proof {
        reveal_with_fuel(digits, 3);
    }
    if n >= 100 {
        s.append(digit_str(n / 100));
    }
    if n >= 10 {
        s.append(digit_str((n / 10) % 10));
    }
    s.append(digit_str(n % 10));
    proof {
        let nn = n as nat;
        if n >= 100 {
            assert(digits(nn / 100) =~= seq![digit_char((n / 100) as int)]);
            assert(digits(nn / 10) =~= seq![digit_char((n / 100) as int), digit_char(((n / 10) % 10) as int)]);
        } else if n >= 10 {
            assert(digits(nn / 10) =~= seq![digit_char((n / 10) as int)]);
        }
        assert(s@ =~= start + digits(nn));
        if v < 0 {
            assert(nn == -v);
        }
    }
    s
}

/// Reads the `i8` written in the first `end` characters of `chars`, as `str::parse::<i8>` does.
pub fn parse_i8(chars: &Vec<char>, end: usize) -> (r: Option<i8>)
    requires
        end <= chars.len(),
    ensures
        r == parse_i8_text(chars@.take(end as int)),
{
    let ghost s = chars@.take(end as int);
    if end == 0 {
        return None;
    }
    let first = chars[0];
    let neg = first == '-';
    let start: usize = if first == '-' || first == '+' { 1 } else { 0 };
    let ghost body = if first == '-' || first == '+' { s.drop_first() } else { s };
    assert(s[0] == first);
    assert(body =~= chars@.subrange(start as int, end as int));
    if start == end {
        return None;
    }
    let mut value: i32 = 0;
    let mut i: usize = start;
    while i < end
        invariant
            start <= i <= end <= chars.len(),
            0 < end,
            s == chars@.take(end as int),
            first == chars@[0],
            neg == (first == '-'),
            body == if first == '-' || first == '+' { s.drop_first() } else { s },
            body =~= chars@.subrange(start as int, end as int),
            all_digits(body.take(i - start)),
            value == digits_value(body.take(i - start)),
            0 <= value <= 128,
        decreases end - i,
    {
        let c = chars[i];
        if c < '0' || c > '9' {
            proof {
                assert(body[i - start] == c);
                assert(!all_digits(body));
            }
            return None;
        }
        let d: i32 = (c as u32 - '0' as u32) as i32;
        let ghost prefix = body.take(i - start + 1);
        proof {
            assert(prefix.drop_last() =~= body.take(i - start));
            assert(prefix.last() == c);
            assert(all_digits(prefix)) by {
                assert forall|j: int| 0 <= j < prefix.len() implies is_digit(#[trigger] prefix[j]) by {
                    if j < prefix.len() - 1 {
                        assert(prefix[j] == body.take(i - start)[j]);
                    }
                }
            }
        }
        value = value * 10 + d;
        i = i + 1;
        if value > 128 {
            proof {
                if all_digits(body) {
                    lemma_digits_value_mono(body, i - start);
                    assert(digits_value(body) > 128);
                }
            }
            return None;
        }
    }
    proof {
        assert(body.take(i - start) =~= body);
    }
    if neg {
        Some((0 - value) as i8)
    } else if value <= 127 {
        Some(value as i8)
    } else {
        None
    }
}

} // verus!
