//! Decimal rendering and parsing of the numbers that appear in button
//! command strings and status texts.

use vstd::prelude::*;

verus! {

/// The decimal digit character for `d` (`0 <= d <= 9`).
pub open spec fn digit_char(d: int) -> char {
    if d == 0 {
        '0'
    } else if d == 1 {
        '1'
    } else if d == 2 {
        '2'
    } else if d == 3 {
        '3'
    } else if d == 4 {
        '4'
    } else if d == 5 {
        '5'
    } else if d == 6 {
        '6'
    } else if d == 7 {
        '7'
    } else if d == 8 {
        '8'
    } else {
        '9'
    }
}

/// Decimal representation of `n`, most significant digit first, no sign
/// and no leading zeros (except for `n == 0` itself).
pub open spec fn dec_str(n: nat) -> Seq<char>
    decreases n,
{
    if n < 10 {
        seq![digit_char(n as int)]
    } else {
        dec_str(n / 10) + seq![digit_char((n % 10) as int)]
    }
}

fn digit_literal(d: u64) -> (r: &'static str)
    requires
        d < 10,
    ensures
        r@ == seq![digit_char(d as int)],
{
    proof {
        reveal_strlit("0");
        reveal_strlit("1");
        reveal_strlit("2");
        reveal_strlit("3");
        reveal_strlit("4");
        reveal_strlit("5");
        reveal_strlit("6");
        reveal_strlit("7");
        reveal_strlit("8");
        reveal_strlit("9");
    }
    let r = if d == 0 {
        "0"
    } else if d == 1 {
        "1"
    } else if d == 2 {
        "2"
    } else if d == 3 {
        "3"
    } else if d == 4 {
        "4"
    } else if d == 5 {
        "5"
    } else if d == 6 {
        "6"
    } else if d == 7 {
        "7"
    } else if d == 8 {
        "8"
    } else {
        "9"
    };
    proof {
        assert(r@ =~= seq![digit_char(d as int)]);
    }
    r
}

/// Renders `n` in decimal.
pub fn u64_to_string(n: u64) -> (r: String)
    ensures
        r@ == dec_str(n as nat),
    decreases n,
{
    if n < 10 {
        String::from_str(digit_literal(n))
    } else {
        let mut s = u64_to_string(n / 10);
        s.append(digit_literal(n % 10));
        proof {
            assert(s@ =~= dec_str(n as nat));
        }
        s
    }
}

/// Is `c` a decimal digit?
pub open spec fn is_digit_char(c: char) -> bool {
    '0' <= c && c <= '9'
}

/// The value of a digit character.
pub open spec fn digit_val(c: char) -> int {
    c as int - '0' as int
}

/// Is `s` a non-empty string of decimal digits?
pub open spec fn is_dec_seq(s: Seq<char>) -> bool {
    s.len() > 0 && forall|i: int| 0 <= i < s.len() ==> is_digit_char(#[trigger] s[i])
}

/// The number a digit string denotes.
pub open spec fn dec_val(s: Seq<char>) -> int
    decreases s.len(),
{
    if s.len() == 0 {
        0
    } else {
        dec_val(s.drop_last()) * 10 + digit_val(s.last())
    }
}

pub proof fn lemma_dec_val_nonneg(s: Seq<char>)
    requires
        forall|i: int| 0 <= i < s.len() ==> is_digit_char(#[trigger] s[i]),
    ensures
        dec_val(s) >= 0,
    decreases s.len(),
{
    if s.len() > 0 {
        let head = s.drop_last();
        lemma_dec_val_nonneg(head);
        assert(is_digit_char(s.last()));
        assert(dec_val(s) == dec_val(head) * 10 + digit_val(s.last()));
        assert(dec_val(head) * 10 >= 0) by (nonlinear_arith)
            requires
                dec_val(head) >= 0,
        ;
    }
}

/// A digit string denotes at least what any of its prefixes denotes.
pub proof fn lemma_dec_val_prefix_le(s: Seq<char>, i: int)
    requires
        0 <= i <= s.len(),
        forall|j: int| 0 <= j < s.len() ==> is_digit_char(#[trigger] s[j]),
    ensures
        dec_val(s.take(i)) <= dec_val(s),
    decreases s.len() - i,
{
    if i < s.len() {
        let next = s.take(i + 1);
        assert(next.drop_last() =~= s.take(i));
        assert(is_digit_char(s[i]));
        lemma_dec_val_nonneg(s.take(i));
        assert(dec_val(s.take(i)) * 10 >= dec_val(s.take(i))) by (nonlinear_arith)
            requires
                dec_val(s.take(i)) >= 0,
        ;
        assert(dec_val(next) >= dec_val(s.take(i)));
        lemma_dec_val_prefix_le(s, i + 1);
        assert(s.take(s.len() as int) =~= s);
    } else {
        assert(s.take(i) =~= s);
    }
}

/// The decimal rendering of `n` is a digit string that denotes `n`.
pub proof fn lemma_dec_str_val(n: nat)
    ensures
        is_dec_seq(dec_str(n)),
        dec_val(dec_str(n)) == n,
    decreases n,
{
    if n < 10 {
        let s = dec_str(n);
        assert(s == seq![digit_char(n as int)]);
        assert(is_digit_char(digit_char(n as int)));
        assert(s.drop_last() =~= Seq::<char>::empty());
        assert(dec_val(s.drop_last()) == 0) by {
            assert(s.drop_last().len() == 0);
        }
        assert(s.last() == digit_char(n as int));
        assert(dec_val(s) == 0 * 10 + digit_val(digit_char(n as int)));
        assert(digit_val(digit_char(n as int)) == n);
    } else {
        let q = n / 10;
        let d = n % 10;
        lemma_dec_str_val(q);
        let tail = seq![digit_char(d as int)];
        assert(dec_str(n) == dec_str(q) + tail);
        assert(dec_str(n).drop_last() =~= dec_str(q));
        assert(dec_str(n).last() == digit_char(d as int));
        assert(digit_val(digit_char(d as int)) == d);
        assert(is_digit_char(digit_char(d as int)));
        assert(dec_val(dec_str(n)) == dec_val(dec_str(q)) * 10 + d);
        assert(dec_val(dec_str(q)) == q);
        assert(q * 10 + d == n) by {
            vstd::arithmetic::div_mod::lemma_fundamental_div_mod(n as int, 10);
        }
    }
}

/// Parses a non-empty all-digit string as a number, refusing anything
/// else and any value above `u32::MAX`.
pub fn parse_u32(s: &str) -> (r: Option<u32>)
    ensures
        r is Some <==> (is_dec_seq(s@) && dec_val(s@) <= u32::MAX),
        r matches Some(v) ==> v == dec_val(s@),
{
    let n = s.unicode_len();
    if n == 0 {
        return None;
    }
    let mut acc: u64 = 0;
    let mut i: usize = 0;
    while i < n
        invariant
            0 < n == s@.len(),
            i <= n,
            forall|j: int| 0 <= j < i ==> is_digit_char(#[trigger] s@[j]),
            acc == dec_val(s@.take(i as int)),
            acc <= u32::MAX,
        decreases n - i,
    {
        let c = s.get_char(i);
        let code = c as u32;
        if code < 48 || code > 57 {
            proof {
                assert(!is_digit_char(s@[i as int]));
            }
            return None;
        }
        let digit = (code - 48) as u64;
        proof {
            assert(is_digit_char(s@[i as int]));
            assert(digit == digit_val(s@[i as int]));
            let next = s@.take(i as int + 1);
            assert(next.drop_last() =~= s@.take(i as int));
            assert(next.last() == s@[i as int]);
        }
        let grown = acc * 10 + digit;
        if grown > u32::MAX as u64 {
            proof {
                assert(dec_val(s@.take(i as int + 1)) == grown);
                if is_dec_seq(s@) {
                    lemma_dec_val_prefix_le(s@, i as int + 1);
                }
            }
            return None;
        }
        acc = grown;
        i += 1;
    }
    proof {
        assert(s@.take(n as int) =~= s@);
    }
    Some(acc as u32)
}


/// Parses a non-empty all-digit string as a number, refusing anything
/// else and any value above `u64::MAX`.
pub fn parse_u64(s: &str) -> (r: Option<u64>)
    ensures
        r is Some <==> (is_dec_seq(s@) && dec_val(s@) <= u64::MAX),
        r matches Some(v) ==> v == dec_val(s@),
{
    let n = s.unicode_len();
    if n == 0 {
        return None;
    }
    let mut acc: u64 = 0;
    let mut i: usize = 0;
    while i < n
        invariant
            0 < n == s@.len(),
            i <= n,
            forall|j: int| 0 <= j < i ==> is_digit_char(#[trigger] s@[j]),
            acc == dec_val(s@.take(i as int)),
        decreases n - i,
    {
        let c = s.get_char(i);
        let code = c as u32;
        if code < 48 || code > 57 {
            proof {
                assert(!is_digit_char(s@[i as int]));
            }
            return None;
        }
        let digit = (code - 48) as u64;
        proof {
            assert(is_digit_char(s@[i as int]));
            assert(digit == digit_val(s@[i as int]));
            let next = s@.take(i as int + 1);
            assert(next.drop_last() =~= s@.take(i as int));
            assert(next.last() == s@[i as int]);
        }
        if acc > (u64::MAX - digit) / 10 {
            proof {
                let head = (u64::MAX - digit) as int;
                vstd::arithmetic::div_mod::lemma_fundamental_div_mod(head, 10);
                vstd::arithmetic::div_mod::lemma_mod_bound(head, 10);
                assert(acc * 10 >= (head / 10 + 1) * 10) by (nonlinear_arith)
                    requires
                        acc >= head / 10 + 1,
                ;
                assert(acc * 10 + digit > u64::MAX);
                assert(dec_val(s@.take(i as int + 1)) == acc * 10 + digit);
                if is_dec_seq(s@) {
                    lemma_dec_val_prefix_le(s@, i as int + 1);
                }
            }
            return None;
        }
        proof {
            let head = (u64::MAX - digit) as int;
            vstd::arithmetic::div_mod::lemma_fundamental_div_mod(head, 10);
            vstd::arithmetic::div_mod::lemma_mod_bound(head, 10);
            assert(acc * 10 <= (head / 10) * 10) by (nonlinear_arith)
                requires
                    acc <= head / 10,
            ;
            assert(acc * 10 + digit <= u64::MAX);
        }
        acc = acc * 10 + digit;
        i += 1;
    }
    proof {
        assert(s@.take(n as int) =~= s@);
    }
    Some(acc)
}

} // verus!
