use vstd::prelude::*;

verus! {

/// Why a numeral could not be read as a keysound ID.
#[derive(Debug, Clone, Copy, PartialEq, Eq, Structural)]
pub enum DecodeError {
    /// The numeral has no characters.
    Empty,
    /// A character is outside `0-9`, `A-Z` and `a-z`.
    InvalidDigit,
    /// The value does not fit in a `u64`.
    PosOverflow,
}

/// Number of IDs that two base-36 characters can name.
pub const ID_LIMIT: u64 = 1296;

/// Value of one base-36 digit, case-insensitively; `-1` for any other character.
pub open spec fn digit_value(c: char) -> int {
    if '0' <= c && c <= '9' {
        c as int - '0' as int
    } else if 'A' <= c && c <= 'Z' {
        c as int - 'A' as int + 10
    } else if 'a' <= c && c <= 'z' {
        c as int - 'a' as int + 10
    } else {
        -1
    }
}

pub open spec fn is_digit36(c: char) -> bool {
    digit_value(c) >= 0
}

pub open spec fn all_digits36(s: Seq<char>) -> bool {
    forall|i: int| 0 <= i < s.len() ==> is_digit36(#[trigger] s[i])
}

/// Value of a numeral read most significant digit first.
pub open spec fn numeral_value(s: Seq<char>) -> int
    decreases s.len(),
{
    if s.len() == 0 {
        0
    } else {
        numeral_value(s.drop_last()) * 36 + digit_value(s.last())
    }
}

/// What decoding a numeral yields.
pub open spec fn decode_spec(s: Seq<char>) -> Result<u64, DecodeError> {
    if s.len() == 0 {
        Err(DecodeError::Empty)
    } else if !all_digits36(s) {
        Err(DecodeError::InvalidDigit)
    } else if numeral_value(s) > u64::MAX {
        Err(DecodeError::PosOverflow)
    } else {
        Ok(numeral_value(s) as u64)
    }
}

/// Upper-case character of a digit value in `0..36`.
pub open spec fn digit_char(d: int) -> char {
    if d < 10 {
        (d + '0' as int) as char
    } else {
        (d - 10 + 'A' as int) as char
    }
}

/// Shortest upper-case base-36 numeral of `n`.
pub open spec fn base36_text(n: nat) -> Seq<char>
    decreases n,
{
    if n < 36 {
        seq![digit_char(n as int)]
    } else {
        base36_text(n / 36).push(digit_char((n % 36) as int))
    }
}

/// The canonical two-character token of an ID.
pub open spec fn id_token(id: int) -> Seq<char> {
    seq![digit_char(id / 36), digit_char(id % 36)]
}

/// Relies on radix_fmt::radix_36 in its alternate form: the shortest base-36
/// numeral of `n` with upper-case letters.
#[verifier::external_body]
fn radix36_upper(n: u64) -> (r: String)
    ensures
        r@ == base36_text(n as nat),
{
    format!("{:#}", radix_fmt::radix_36(n))
}

/// Relies on String::push: appends one character.
#[verifier::external_body]
pub(crate) fn push_char(s: &mut String, c: char)
    ensures
        final(s)@ == old(s)@.push(c),
{
    s.push(c)
}

fn digit_of(c: char) -> (r: Option<u64>)
    ensures
        r is Some <==> is_digit36(c),
        r is Some ==> r->0 as int == digit_value(c),
{
    if '0' <= c && c <= '9' {
        Some((c as u32 - '0' as u32) as u64)
    } else if 'A' <= c && c <= 'Z' {
        Some((c as u32 - 'A' as u32 + 10) as u64)
    } else if 'a' <= c && c <= 'z' {
        Some((c as u32 - 'a' as u32 + 10) as u64)
    } else {
        None
    }
}

proof fn lemma_numeral_nonneg(s: Seq<char>)
    requires
        all_digits36(s),
    ensures
        numeral_value(s) >= 0,
    decreases s.len(),
{
    if s.len() > 0 {
        lemma_numeral_nonneg(s.drop_last());
    }
}

proof fn lemma_numeral_monotone(s: Seq<char>, k: int)
    requires
        all_digits36(s),
        0 <= k <= s.len(),
    ensures
        numeral_value(s.take(k)) <= numeral_value(s),
    decreases s.len(),
{
    if k < s.len() {
        let p = s.drop_last();
        assert(p.take(k) =~= s.take(k));
        lemma_numeral_monotone(p, k);
        lemma_numeral_nonneg(p);
    } else {
        assert(s.take(k) =~= s);
    }
}

/// Reads a base-36 numeral, case-insensitively, into an ID.
pub fn as_id(chars: &str) -> (r: Result<u64, DecodeError>)
    ensures
        r == decode_spec(chars@),
{
    let n = chars.unicode_len();
    if n == 0 {
        return Err(DecodeError::Empty);
    }
    let mut i: usize = 0;
    while i < n
        invariant
            n == chars@.len(),
            0 <= i <= n,
            forall|j: int| 0 <= j < i ==> is_digit36(#[trigger] chars@[j]),
        decreases n - i,
    {
        let c = chars.get_char(i);
        if digit_of(c).is_none() {
            return Err(DecodeError::InvalidDigit);
        }
        i = i + 1;
    }
    let mut value: u64 = 0;
    let mut i: usize = 0;
    while i < n
        invariant
            n == chars@.len(),
            0 <= i <= n,
            all_digits36(chars@),
            value as int == numeral_value(chars@.take(i as int)),
        decreases n - i,
    {
        let c = chars.get_char(i);
        let d = digit_of(c).unwrap();
        proof {
            let t = chars@.take(i as int + 1);
            assert(t.drop_last() =~= chars@.take(i as int));
            assert(t.last() == c);
            lemma_numeral_monotone(chars@, i as int + 1);
        }
        if value > (u64::MAX - d) / 36 {
            proof {
                assert(value * 36 + d > u64::MAX) by (nonlinear_arith)
                    requires value > (u64::MAX - d) / 36, d < 36;
            }
            return Err(DecodeError::PosOverflow);
        }
        proof {
            assert(value * 36 + d <= u64::MAX) by (nonlinear_arith)
                requires value <= (u64::MAX - d) / 36, d < 36;
        }
        value = value * 36 + d;
        i = i + 1;
    }
    assert(chars@.take(n as int) =~= chars@);
    Ok(value)
}

/// Writes an ID as its canonical two-character upper-case token.
pub fn as_str(id: u64) -> (r: String)
    requires
        id < ID_LIMIT,
    ensures
        r@ == id_token(id as int),
        r@.len() == 2,
{
    let digits = radix36_upper(id);
    proof {
        if id >= 36 {
            assert(base36_text((id / 36) as nat) == seq![digit_char((id / 36) as int)]);
        }
    }
    if id < 36 {
        let mut padded = String::new();
        push_char(&mut padded, '0');
        padded.append(digits.as_str());
        assert(padded@ =~= id_token(id as int));
        padded
    } else {
        assert(digits@ =~= id_token(id as int));
        digits
    }
}

/// A character with `a-z` mapped to `A-Z` and every other character kept.
pub open spec fn ascii_upper(c: char) -> char {
    if 'a' <= c && c <= 'z' {
        (c as int - 32) as char
    } else {
        c
    }
}

proof fn lemma_digit_char_value(d: int)
    requires
        0 <= d < 36,
    ensures
        digit_value(digit_char(d)) == d,
        is_digit36(digit_char(d)),
        digit_char(d) == ascii_upper(digit_char(d)),
{
}

/// Every ID below the limit is written as exactly two characters, and reading
/// that token back gives the same ID.
pub proof fn lemma_codec_round_trip(id: u64)
    requires
        id < ID_LIMIT,
    ensures
        id_token(id as int).len() == 2,
        decode_spec(id_token(id as int)) == Ok::<u64, DecodeError>(id),
{
    let t = id_token(id as int);
    lemma_digit_char_value(id as int / 36);
    lemma_digit_char_value(id as int % 36);
    assert(t.drop_last().drop_last() =~= Seq::<char>::empty());
    assert(numeral_value(t.drop_last().drop_last()) == 0);
    assert(t.drop_last().last() == digit_char(id as int / 36));
    assert(numeral_value(t.drop_last()) == id / 36);
    assert(numeral_value(t) == id);
}

proof fn lemma_upper_numeral(s: Seq<char>)
    ensures
        numeral_value(s.map_values(|c: char| ascii_upper(c))) == numeral_value(s),
        all_digits36(s.map_values(|c: char| ascii_upper(c))) == all_digits36(s),
    decreases s.len(),
{
    let u = s.map_values(|c: char| ascii_upper(c));
    assert forall|i: int| 0 <= i < s.len() implies digit_value(u[i]) == digit_value(s[i]) by {}
    if s.len() > 0 {
        assert(u.drop_last() =~= s.drop_last().map_values(|c: char| ascii_upper(c)));
        lemma_upper_numeral(s.drop_last());
    }
    if all_digits36(s) {
        assert forall|i: int| 0 <= i < u.len() implies is_digit36(#[trigger] u[i]) by {
            assert(is_digit36(s[i]));
        }
    }
    if all_digits36(u) {
        assert forall|i: int| 0 <= i < s.len() implies is_digit36(#[trigger] s[i]) by {
            assert(is_digit36(u[i]));
        }
    }
}

/// Decoding ignores letter case: upper-casing a numeral's ASCII letters
/// changes neither the value nor the error.
pub proof fn lemma_decode_case_insensitive(s: Seq<char>)
    ensures
        decode_spec(s.map_values(|c: char| ascii_upper(c))) == decode_spec(s),
{
    lemma_upper_numeral(s);
}

/// A two-character token of base-36 digits names an ID below the limit.
pub proof fn lemma_token_value(t: Seq<char>)
    requires
        t.len() == 2,
    ensures
        all_digits36(t) ==> decode_spec(t) == Ok::<u64, DecodeError>(numeral_value(t) as u64),
        all_digits36(t) ==> 0 <= numeral_value(t) < ID_LIMIT,
        !all_digits36(t) ==> exists|j: int| 0 <= j < 2 && !is_digit36(#[trigger] t[j]),
{
    if all_digits36(t) {
        assert(is_digit36(t[0]) && is_digit36(t[1]));
        assert(t.drop_last().drop_last() =~= Seq::<char>::empty());
        assert(numeral_value(t.drop_last().drop_last()) == 0);
        assert(t.drop_last().last() == t[0]);
        assert(numeral_value(t.drop_last()) == digit_value(t[0]));
        assert(numeral_value(t) == digit_value(t[0]) * 36 + digit_value(t[1]));
    }
}

} // verus!
