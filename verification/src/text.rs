use vstd::prelude::*;
use vstd::string::StringExecFns;

verus! {

/// The decimal digit character of `d`, for `d < 10`.
pub open spec fn digit_char(d: nat) -> char {
    if d == 0 {
        '0'
    } else if d == 1 {
        '1'
    } else if d == 2 {
        '2'
    } else if d == 3 {
        '3'
    } else if d == 4 {
        '4'
    } else if d == 5 {
        '5'
    } else if d == 6 {
        '6'
    } else if d == 7 {
        '7'
    } else if d == 8 {
        '8'
    } else {
        '9'
    }
}

/// The decimal text of `n`: no sign, no leading zeros.
pub open spec fn dec_spec(n: nat) -> Seq<char>
    decreases n,
{
    if n < 10 {
        seq![digit_char(n)]
    } else {
        dec_spec(n / 10).push(digit_char(n % 10))
    }
}

/// The one-character text of the digit `d`.
fn digit_str(d: usize) -> (r: &'static str)
    requires
        d < 10,
    ensures
        r@ == seq![digit_char(d as nat)],
{
    if d == 0 {
        proof {
            reveal_strlit("0");
            assert("0"@ =~= seq![digit_char(0)]);
        }
        "0"
    } else if d == 1 {
        proof {
            reveal_strlit("1");
            assert("1"@ =~= seq![digit_char(1)]);
        }
        "1"
    } else if d == 2 {
        proof {
            reveal_strlit("2");
            assert("2"@ =~= seq![digit_char(2)]);
        }
        "2"
    } else if d == 3 {
        proof {
            reveal_strlit("3");
            assert("3"@ =~= seq![digit_char(3)]);
        }
        "3"
    } else if d == 4 {
        proof {
            reveal_strlit("4");
            assert("4"@ =~= seq![digit_char(4)]);
        }
        "4"
    } else if d == 5 {
        proof {
            reveal_strlit("5");
            assert("5"@ =~= seq![digit_char(5)]);
        }
        "5"
    } else if d == 6 {
        proof {
            reveal_strlit("6");
            assert("6"@ =~= seq![digit_char(6)]);
        }
        "6"
    } else if d == 7 {
        proof {
            reveal_strlit("7");
            assert("7"@ =~= seq![digit_char(7)]);
        }
        "7"
    } else if d == 8 {
        proof {
            reveal_strlit("8");
            assert("8"@ =~= seq![digit_char(8)]);
        }
        "8"
    } else {
        proof {
            reveal_strlit("9");
            assert("9"@ =~= seq![digit_char(9)]);
        }
        "9"
    }
}

/// The decimal text of `n`.
pub fn usize_to_string(n: usize) -> (r: String)
    ensures
        r@ == dec_spec(n as nat),
    decreases n,
{
    if n < 10 {
        digit_str(n).to_owned()
    } else {
        let mut s = usize_to_string(n / 10);
        s.append(digit_str(n % 10));
        proof {
            assert(s@ =~= dec_spec((n / 10) as nat).push(digit_char((n % 10) as nat)));
        }
        s
    }
}

/// The rendered list `[a, b, c]` of the first `i` entries, without the
/// brackets.
pub open spec fn join_vals(s: Seq<usize>, i: int) -> Seq<char>
    decreases i,
{
    if i <= 0 {
        Seq::empty()
    } else if i == 1 {
        dec_spec(s[0] as nat)
    } else {
        join_vals(s, i - 1) + seq![',', ' '] + dec_spec(s[i - 1] as nat)
    }
}

/// The rendered permutation: bracketed, comma-space separated,
/// zero-indexed values in array order.
pub open spec fn perm_text(s: Seq<usize>) -> Seq<char> {
    seq!['['] + join_vals(s, s.len() as int) + seq![']']
}

/// The rendered factor `x_i^p`: `x_i` when `p` is one, `1` when `p` is
/// zero.
pub open spec fn factor_text(i: usize, p: usize) -> Seq<char> {
    if p == 0 {
        seq!['1']
    } else if p == 1 {
        seq!['x', '_'] + dec_spec(i as nat)
    } else {
        seq!['x', '_'] + dec_spec(i as nat) + seq!['^'] + dec_spec(p as nat)
    }
}

/// The first `k` factors of a monomial, joined by `*`.
pub open spec fn mono_join(ps: Seq<(usize, usize)>, k: int) -> Seq<char>
    decreases k,
{
    if k <= 0 {
        Seq::empty()
    } else if k == 1 {
        factor_text(ps[0].0, ps[0].1)
    } else {
        mono_join(ps, k - 1) + seq!['*'] + factor_text(ps[k - 1].0, ps[k - 1].1)
    }
}

/// The rendered monomial: its factors joined by `*`, or the literal `1`
/// when it has none.
pub open spec fn mono_text(ps: Seq<(usize, usize)>) -> Seq<char> {
    if ps.len() == 0 {
        seq!['1']
    } else {
        mono_join(ps, ps.len() as int)
    }
}

/// The first `k` monomials, joined by formal addition.
pub open spec fn parts_join(ps: Seq<Seq<(usize, usize)>>, k: int) -> Seq<char>
    decreases k,
{
    if k <= 0 {
        Seq::empty()
    } else if k == 1 {
        mono_text(ps[0])
    } else {
        parts_join(ps, k - 1) + seq![' ', '+', ' '] + mono_text(ps[k - 1])
    }
}

/// The rendered Schubert polynomial: the permutation label, then the
/// monomials joined by formal addition, or the literal `1` when there
/// are none.
pub open spec fn schubert_text(p: Seq<usize>, parts: Seq<Seq<(usize, usize)>>) -> Seq<char> {
    seq!['S', '_'] + perm_text(p) + seq![' ', '=', ' '] + (if parts.len() == 0 {
        seq!['1']
    } else {
        parts_join(parts, parts.len() as int)
    })
}

/// ASCII whitespace: space, tab, line feed, form feed, carriage return.
pub open spec fn is_ws(c: char) -> bool {
    c == ' ' || c == '\t' || c == '\n' || c == '\u{c}' || c == '\r'
}

/// `s` without leading whitespace.
pub open spec fn trim_front(s: Seq<char>) -> Seq<char>
    decreases s.len(),
{
    if s.len() > 0 && is_ws(s[0]) {
        trim_front(s.drop_first())
    } else {
        s
    }
}

/// `s` without trailing whitespace.
pub open spec fn trim_back(s: Seq<char>) -> Seq<char>
    decreases s.len(),
{
    if s.len() > 0 && is_ws(s.last()) {
        trim_back(s.drop_last())
    } else {
        s
    }
}

/// `s` without surrounding whitespace.
pub open spec fn trim_spec(s: Seq<char>) -> Seq<char> {
    trim_back(trim_front(s))
}

/// Dropping `k` leading whitespace characters, down to a non-blank
/// character or the end, is exactly `trim_front`.
pub proof fn lemma_trim_front_skip(s: Seq<char>, k: int)
    requires
        0 <= k <= s.len(),
        forall|m: int| 0 <= m < k ==> is_ws(#[trigger] s[m]),
        k == s.len() || !is_ws(s[k]),
    ensures
        trim_front(s) == s.skip(k),
    decreases k,
{
    if k == 0 {
        assert(s.skip(0) =~= s);
    } else {
        lemma_trim_front_skip(s.drop_first(), k - 1);
        assert(s.drop_first().skip(k - 1) =~= s.skip(k));
    }
}

/// Keeping `h` characters, back to a non-blank character, is exactly
/// `trim_back`.
pub proof fn lemma_trim_back_take(s: Seq<char>, h: int)
    requires
        0 <= h <= s.len(),
        forall|m: int| h <= m < s.len() ==> is_ws(#[trigger] s[m]),
        h == 0 || !is_ws(s[h - 1]),
    ensures
        trim_back(s) == s.take(h),
    decreases s.len(),
{
    if h == s.len() {
        assert(s.take(h) =~= s);
    } else {
        lemma_trim_back_take(s.drop_last(), h);
        assert(s.drop_last().take(h) =~= s.take(h));
    }
}

/// `d` is a prefix of `s`.
pub open spec fn has_prefix(s: Seq<char>, d: Seq<char>) -> bool {
    d.len() <= s.len() && s.subrange(0, d.len() as int) == d
}

/// `s` split at the non-overlapping occurrences of `d`, found left to
/// right, with `cur` the token read so far.
pub open spec fn split_rec(s: Seq<char>, d: Seq<char>, cur: Seq<char>) -> Seq<Seq<char>>
    decreases s.len(),
    when d.len() > 0
{
    if s.len() == 0 {
        seq![cur]
    } else if has_prefix(s, d) {
        seq![cur] + split_rec(s.skip(d.len() as int), d, Seq::empty())
    } else {
        split_rec(s.drop_first(), d, cur.push(s[0]))
    }
}

/// A decimal digit.
pub open spec fn is_digit(c: char) -> bool {
    ('0' as u32) <= (c as u32) && (c as u32) <= ('9' as u32)
}

/// The value of a digit character.
pub open spec fn digit_val(c: char) -> nat {
    ((c as u32) - ('0' as u32)) as nat
}

/// The value of a string of decimal digits.
pub open spec fn digits_val(s: Seq<char>) -> nat
    decreases s.len(),
{
    if s.len() == 0 {
        0
    } else {
        digits_val(s.drop_last()) * 10 + digit_val(s.last())
    }
}

/// Every character is a digit, and there is at least one.
pub open spec fn all_digits(s: Seq<char>) -> bool {
    forall|k: int| 0 <= k < s.len() ==> is_digit(#[trigger] s[k])
}

/// `s` without one optional leading plus sign.
pub open spec fn strip_plus(s: Seq<char>) -> Seq<char> {
    if s.len() > 0 && s[0] == '+' {
        s.drop_first()
    } else {
        s
    }
}

/// The digits of a token: surrounding whitespace and one optional
/// leading plus sign removed.
pub open spec fn token_body(t: Seq<char>) -> Seq<char> {
    strip_plus(trim_spec(t))
}

/// The token denotes a non-negative integer that fits the machine.
pub open spec fn token_ok(t: Seq<char>) -> bool {
    let u = token_body(t);
    u.len() > 0 && all_digits(u) && digits_val(u) <= usize::MAX
}

/// The value a token denotes.
pub open spec fn token_val(t: Seq<char>) -> nat {
    digits_val(token_body(t))
}

/// The tokens of the input: trimmed, then split at the delimiter.
pub open spec fn tokens_spec(input: Seq<char>, d: Seq<char>) -> Seq<Seq<char>> {
    split_rec(trim_spec(input), d, Seq::empty())
}

/// The values the tokens denote.
pub open spec fn token_vals(ts: Seq<Seq<char>>) -> Seq<usize> {
    Seq::new(ts.len(), |k: int| token_val(ts[k]) as usize)
}

/// A digit string is worth at least any of its prefixes.
pub proof fn lemma_digits_val_mono(s: Seq<char>, k: int)
    requires
        0 <= k <= s.len(),
    ensures
        digits_val(s.take(k)) <= digits_val(s),
    decreases s.len() - k,
{
    if k == s.len() {
        assert(s.take(k) =~= s);
    } else {
        lemma_digits_val_mono(s, k + 1);
        assert(s.take(k + 1).drop_last() =~= s.take(k));
        assert(s.take(k + 1).last() == s[k]);
        assert(digits_val(s.take(k + 1)) == digits_val(s.take(k)) * 10 + digit_val(s[k]));
        assert(digits_val(s.take(k)) * 10 >= digits_val(s.take(k))) by (nonlinear_arith);
    }
}

} // verus!
