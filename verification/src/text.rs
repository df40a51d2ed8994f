use vstd::prelude::*;

verus! {

use vstd::arithmetic::div_mod::lemma_fundamental_div_mod;

/// The character is a decimal digit.
pub open spec fn char_is_digit(c: char) -> bool {
    48 <= c as int <= 57
}

/// Numeric value of a digit character.
pub open spec fn digit_val(c: char) -> int {
    c as int - 48
}

/// The digit character for a value in `0..10`.
pub open spec fn digit_char(d: int) -> char {
    if d == 0 {
        '0'
    } else if d == 1 {
        '1'
    } else if d == 2 {
        '2'
    } else if d == 3 {
        '3'
    } else if d == 4 {
        '4'
    } else if d == 5 {
        '5'
    } else if d == 6 {
        '6'
    } else if d == 7 {
        '7'
    } else if d == 8 {
        '8'
    } else {
        '9'
    }
}

/// Canonical decimal text of a non-negative integer: at least one digit,
/// digits only, and no leading zero.
pub open spec fn is_canon_dec(s: Seq<char>) -> bool {
    &&& s.len() > 0
    &&& (forall|i: int| 0 <= i < s.len() ==> char_is_digit(#[trigger] s[i]))
    &&& (s.len() > 1 ==> s[0] != '0')
}

/// The integer a sequence of digit characters denotes.
pub open spec fn dec_val(s: Seq<char>) -> int
    decreases s.len(),
{
    if s.len() == 0 {
        0
    } else {
        10 * dec_val(s.drop_last()) + digit_val(s.last())
    }
}

/// The canonical decimal text of a non-negative integer.
pub open spec fn dec_str(n: int) -> Seq<char>
    decreases n,
{
    if n < 10 {
        seq![digit_char(n)]
    } else {
        dec_str(n / 10).push(digit_char(n % 10))
    }
}

pub proof fn lemma_digit_char_val(d: int)
    requires
        0 <= d <= 9,
    ensures
        digit_val(digit_char(d)) == d,
        char_is_digit(digit_char(d)),
        d != 0 ==> digit_char(d) != '0',
{
}

/// A digit sequence denotes a non-negative value.
pub proof fn lemma_dec_val_nonneg(s: Seq<char>)
    requires
        forall|i: int| 0 <= i < s.len() ==> char_is_digit(#[trigger] s[i]),
    ensures
        dec_val(s) >= 0,
    decreases s.len(),
{
    if s.len() > 0 {
        lemma_dec_val_nonneg(s.drop_last());
    }
}

/// Extending a digit sequence by one digit multiplies its value by ten.
pub proof fn lemma_dec_val_step(s: Seq<char>, i: int)
    requires
        0 <= i < s.len(),
    ensures
        dec_val(s.take(i + 1)) == 10 * dec_val(s.take(i)) + digit_val(s[i]),
{
    assert(s.take(i + 1).drop_last() =~= s.take(i));
    assert(s.take(i + 1).last() == s[i]);
}

/// The value of a digit sequence never falls below the value of a prefix.
pub proof fn lemma_dec_val_prefix(s: Seq<char>, i: int)
    requires
        forall|j: int| 0 <= j < s.len() ==> char_is_digit(#[trigger] s[j]),
        0 <= i <= s.len(),
    ensures
        dec_val(s) >= dec_val(s.take(i)),
    decreases s.len() - i,
{
    if i == s.len() {
        assert(s.take(i) =~= s);
    } else {
        lemma_dec_val_step(s, i);
        lemma_dec_val_nonneg(s.take(i));
        lemma_dec_val_prefix(s, i + 1);
    }
}

/// The canonical text of `n` denotes `n` and is canonical.
pub proof fn lemma_dec_str_val(n: int)
    requires
        n >= 0,
    ensures
        is_canon_dec(dec_str(n)),
        dec_val(dec_str(n)) == n,
        n >= 1 ==> dec_str(n)[0] != '0',
    decreases n,
{
    if n < 10 {
        lemma_digit_char_val(n);
        let s = dec_str(n);
        assert(s.drop_last() =~= Seq::<char>::empty());
        assert(dec_val(s) == 10 * dec_val(s.drop_last()) + digit_val(s.last()));
    } else {
        lemma_dec_str_val(n / 10);
        lemma_digit_char_val(n % 10);
        lemma_fundamental_div_mod(n, 10);
        let p = dec_str(n / 10);
        let s = dec_str(n);
        assert(s == p.push(digit_char(n % 10)));
        assert(s.drop_last() =~= p);
        assert(s.last() == digit_char(n % 10));
        assert(dec_val(s) == 10 * dec_val(p) + digit_val(digit_char(n % 10)));
        assert(s[0] == p[0]);
        assert(forall|i: int| 0 <= i < s.len() ==> char_is_digit(#[trigger] s[i])) by {
            assert(forall|i: int| 0 <= i < p.len() ==> s[i] == p[i]);
        }
    }
}

/// The digit character for a digit value.
fn digit_str(d: u8) -> (s: &'static str)
    requires
        d < 10,
    ensures
        s@ =~= seq![digit_char(d as int)],
{
    proof {
        reveal_strlit("0");
        reveal_strlit("1");
        reveal_strlit("2");
        reveal_strlit("3");
        reveal_strlit("4");
        reveal_strlit("5");
        reveal_strlit("6");
        reveal_strlit("7");
        reveal_strlit("8");
        reveal_strlit("9");
    }
    match d {
        0 => "0",
        1 => "1",
        2 => "2",
        3 => "3",
        4 => "4",
        5 => "5",
        6 => "6",
        7 => "7",
        8 => "8",
        _ => "9",
    }
}

/// Appends the canonical decimal text of `n` to `out`.
fn push_decimal(out: &mut String, n: u128)
    ensures
        final(out)@ == old(out)@ + dec_str(n as int),
    decreases n,
{
    if n < 10 {
        let d = digit_str(n as u8);
        out.append(d);
        proof {
            assert(old(out)@ + d@ =~= old(out)@ + dec_str(n as int));
        }
    } else {
        push_decimal(out, n / 10);
        let d = digit_str((n % 10) as u8);
        out.append(d);
        proof {
            assert((old(out)@ + dec_str((n / 10) as int)) + d@ =~= old(out)@ + dec_str(n as int));
        }
    }
}

/// The canonical decimal text of an identifier value.
pub fn token_id_string(n: u128) -> (token: String)
    ensures
        token@ == dec_str(n as int),
        is_canon_dec(token@),
        dec_val(token@) == n as int,
{
    let mut out = String::new();
    push_decimal(&mut out, n);
    proof {
        assert(out@ =~= dec_str(n as int));
        lemma_dec_str_val(n as int);
    }
    out
}

/// Parses canonical decimal identifier text. Returns `None` when the text is
/// not a canonical non-negative decimal number or its value does not fit in
/// a `u128`.
pub fn parse_token_id(token: &str) -> (r: Option<u128>)
    ensures
        r is Some <==> is_canon_dec(token@) && dec_val(token@) <= u128::MAX as int,
        r matches Some(v) ==> v as int == dec_val(token@),
{
    let len = token.unicode_len();
    if len == 0 {
        return None;
    }
    let c0 = token.get_char(0);
    if len > 1 && c0 as u32 == 48 {
        return None;
    }
    let mut val: u128 = 0;
    let mut i: usize = 0;
    while i < len
        invariant
            0 < len == token@.len(),
            0 <= i <= len,
            forall|j: int| 0 <= j < i ==> char_is_digit(#[trigger] token@[j]),
            val as int == dec_val(token@.take(i as int)),
            len > 1 ==> token@[0] != '0',
        decreases len - i,
    {
        let c = token.get_char(i);
        let u = c as u32;
        if u < 48 || u > 57 {
            return None;
        }
        let d = (u - 48) as u128;
        proof {
            lemma_dec_val_step(token@, i as int);
        }
        if val > (u128::MAX - d) / 10 {
            proof {
                if is_canon_dec(token@) {
                    lemma_dec_val_nonneg(token@.take(i as int + 1));
                    lemma_dec_val_prefix(token@, i as int + 1);
                }
            }
            return None;
        }
        val = val * 10 + d;
        i = i + 1;
    }
    proof {
        assert(token@.take(len as int) =~= token@);
    }
    Some(val)
}

} // verus!
