//! Rendering values to text, and the text searches the event filter needs:
//! substring search over characters, exact decimal formatting and parsing of
//! machine integers (so 64-bit ids survive transport as strings without
//! precision loss), and JSON string escaping for the trace document.

use vstd::prelude::*;
use vstd::string::StrSliceExecFns;

verus! {

// ---------------------------------------------------------------------------
// Substring search
// ---------------------------------------------------------------------------
/// `needle` occurs in `hay` starting at position `i`.
pub open spec fn contains_at(hay: Seq<char>, needle: Seq<char>, i: int) -> bool {
    0 <= i && i + needle.len() <= hay.len() && hay.subrange(i, i + needle.len()) == needle
}

/// `needle` occurs somewhere in `hay`.
pub open spec fn contains_seq(hay: Seq<char>, needle: Seq<char>) -> bool {
    exists|i: int| contains_at(hay, needle, i)
}

/// Substring search, character by character.
pub fn str_contains(hay: &str, needle: &str) -> (found: bool)
    ensures
        found == contains_seq(hay@, needle@),
{
    let h = hay.unicode_len();
    let n = needle.unicode_len();
    if n == 0 {
        proof {
            assert(contains_at(hay@, needle@, 0)) by {
                assert(hay@.subrange(0, 0) =~= needle@);
            }
        }
        return true;
    }
    if n > h {
        return false;
    }
    let mut i: usize = 0;
    while i <= h - n
        invariant
            h == hay@.len(),
            n == needle@.len(),
            1 <= n <= h,
            0 <= i <= h - n + 1,
            forall|ii: int| 0 <= ii < i ==> !contains_at(hay@, needle@, ii),
        decreases h - n - i + 1,
    {
        let mut j: usize = 0;
        let mut ok = true;
        while ok && j < n
            invariant
                h == hay@.len(),
                n == needle@.len(),
                i + n <= h,
                0 <= j <= n,
                ok ==> forall|jj: int| 0 <= jj < j ==> hay@[i + jj] == needle@[jj],
                !ok ==> !contains_at(hay@, needle@, i as int),
            decreases n - j + (if ok {
                1int
            } else {
                0int
            }),
        {
            if hay.get_char(i + j) != needle.get_char(j) {
                proof {
                    if contains_at(hay@, needle@, i as int) {
                        assert(hay@.subrange(i as int, i + n)[j as int] == needle@[j as int]);
                    }
                }
                ok = false;
            } else {
                j += 1;
            }
        }
        if ok {
            proof {
                assert(j == n);
                assert forall|jj: int| 0 <= jj < n implies hay@.subrange(i as int, i + n)[jj]
                    == needle@[jj] by {
                    assert(hay@.subrange(i as int, i + n)[jj] == hay@[i + jj]);
                }
                assert(hay@.subrange(i as int, i + n) =~= needle@);
                assert(contains_at(hay@, needle@, i as int));
            }
            return true;
        }
        i += 1;
    }
    proof {
        assert forall|ii: int| !contains_at(hay@, needle@, ii) by {
            if ii + n <= h {
                assert(ii < i || ii < 0);
            }
        }
    }
    false
}

/// String equality, character by character.
pub fn str_eq(a: &str, b: &str) -> (equal: bool)
    ensures
        equal == (a@ == b@),
{
    let la = a.unicode_len();
    let lb = b.unicode_len();
    if la != lb {
        return false;
    }
    let mut i: usize = 0;
    while i < la
        invariant
            0 <= i <= la,
            la == a@.len(),
            la == b@.len(),
            forall|k: int| 0 <= k < i ==> a@[k] == b@[k],
        decreases la - i,
    {
        if a.get_char(i) != b.get_char(i) {
            return false;
        }
        i += 1;
    }
    proof {
        assert(a@ =~= b@);
    }
    true
}

// ---------------------------------------------------------------------------
// Decimal formatting and parsing
// ---------------------------------------------------------------------------
/// The decimal digit character for a value below ten.
pub open spec fn dec_digit(d: int) -> char {
    if d == 0 {
        '0'
    } else if d == 1 {
        '1'
    } else if d == 2 {
        '2'
    } else if d == 3 {
        '3'
    } else if d == 4 {
        '4'
    } else if d == 5 {
        '5'
    } else if d == 6 {
        '6'
    } else if d == 7 {
        '7'
    } else if d == 8 {
        '8'
    } else {
        '9'
    }
}

/// The canonical decimal rendering of a natural number: no sign, no leading
/// zero except for zero itself.
pub open spec fn u64_dec(n: nat) -> Seq<char>
    decreases n,
{
    if n < 10 {
        seq![dec_digit(n as int)]
    } else {
        u64_dec(n / 10).push(dec_digit((n % 10) as int))
    }
}

/// The canonical decimal rendering of a signed number: a minus sign before
/// the magnitude when negative.
pub open spec fn i64_dec(n: int) -> Seq<char> {
    if n < 0 {
        seq!['-'] + u64_dec((-n) as nat)
    } else {
        u64_dec(n as nat)
    }
}

fn dec_digit_char(d: u64) -> (c: char)
    requires
        d < 10,
    ensures
        c == dec_digit(d as int),
{
    match d {
        0 => '0',
        1 => '1',
        2 => '2',
        3 => '3',
        4 => '4',
        5 => '5',
        6 => '6',
        7 => '7',
        8 => '8',
        _ => '9',
    }
}

/// Relies on String::push: appends the given character to the end of the
/// string.
#[verifier::external_body]
pub(crate) fn push_char(out: &mut String, c: char)
    ensures
        final(out)@ == old(out)@.push(c),
{
    out.push(c);
}

/// Append the canonical decimal rendering of `n` to `out`.
pub fn append_u64(out: &mut String, n: u64)
    ensures
        final(out)@ == old(out)@ + u64_dec(n as nat),
{
    if n == 0 {
        push_char(out, '0');
        proof {
            assert(old(out)@ + u64_dec(0) =~= old(out)@.push('0'));
        }
        return ;
    }
    let mut digits: Vec<char> = Vec::new();
    let mut m: u64 = n;
    proof {
        assert(u64_dec(n as nat) =~= u64_dec(n as nat) + digits@.reverse());
    }
    loop
        invariant_except_break
            m > 0,
            u64_dec(n as nat) == u64_dec(m as nat) + digits@.reverse(),
        ensures
            u64_dec(n as nat) == digits@.reverse(),
        decreases m,
    {
        let ghost m_entry = m as nat;
        let d = m % 10;
        let next = m / 10;
        let ghost pre = digits@;
        digits.push(dec_digit_char(d));
        proof {
            assert(digits@.reverse() =~= seq![dec_digit(d as int)] + pre.reverse());
        }
        m = next;
        if m == 0 {
            proof {
                assert(m_entry < 10);
                assert(u64_dec(m_entry) =~= seq![dec_digit(d as int)]);
                assert(u64_dec(n as nat) =~= digits@.reverse());
            }
            break ;
        }
        proof {
            assert(u64_dec(m_entry) == u64_dec(m as nat).push(dec_digit(d as int)));
            assert(u64_dec(m as nat) + digits@.reverse() =~= (u64_dec(m as nat).push(
                dec_digit(d as int),
            )) + pre.reverse());
        }
    }
    let mut i: usize = digits.len();
    while i > 0
        invariant
            i <= digits@.len(),
            out@ == old(out)@ + digits@.reverse().take(digits@.len() - i),
        decreases i,
    {
        i = i - 1;
        push_char(out, digits[i]);
        proof {
            assert(digits@.reverse().take(digits@.len() - i) =~= digits@.reverse().take(
                digits@.len() - (i + 1),
            ).push(digits@[i as int]));
        }
    }
    proof {
        assert(digits@.reverse().take(digits@.len() as int) =~= digits@.reverse());
    }
}

/// The canonical decimal rendering of `n`.
pub fn format_u64(n: u64) -> (s: String)
    ensures
        s@ == u64_dec(n as nat),
{
    let mut s = String::new();
    append_u64(&mut s, n);
    s
}

/// Whether `c` is a decimal digit.
pub open spec fn is_dec_digit(c: char) -> bool {
    c == '0' || c == '1' || c == '2' || c == '3' || c == '4' || c == '5' || c == '6' || c == '7'
        || c == '8' || c == '9'
}

/// The numeric value of a digit character (nine for anything else).
pub open spec fn digit_val(c: char) -> int {
    if c == '0' {
        0
    } else if c == '1' {
        1
    } else if c == '2' {
        2
    } else if c == '3' {
        3
    } else if c == '4' {
        4
    } else if c == '5' {
        5
    } else if c == '6' {
        6
    } else if c == '7' {
        7
    } else if c == '8' {
        8
    } else {
        9
    }
}

/// Whether every character of `s` is a decimal digit.
pub open spec fn all_dec_digits(s: Seq<char>) -> bool {
    forall|i: int| 0 <= i < s.len() ==> is_dec_digit(#[trigger] s[i])
}

/// The number a sequence of digit characters denotes.
pub open spec fn dec_value(s: Seq<char>) -> int
    decreases s.len(),
{
    if s.len() == 0 {
        0
    } else {
        dec_value(s.drop_last()) * 10 + digit_val(s.last())
    }
}

proof fn lemma_dec_value_nonneg(s: Seq<char>)
    ensures
        dec_value(s) >= 0,
    decreases s.len(),
{
    if s.len() > 0 {
        lemma_dec_value_nonneg(s.drop_last());
    }
}

proof fn lemma_dec_value_prefix_le(s: Seq<char>, j: int)
    requires
        0 <= j <= s.len(),
    ensures
        dec_value(s.take(j)) <= dec_value(s),
    decreases s.len() - j,
{
    if j < s.len() {
        lemma_dec_value_prefix_le(s, j + 1);
        assert(s.take(j + 1).drop_last() =~= s.take(j));
        assert(s.take(j + 1).last() == s[j]);
        lemma_dec_value_nonneg(s.take(j));
    } else {
        assert(s.take(j) =~= s);
    }
}

/// Parse a number written in decimal digits, rejecting any other text and any
/// value too large for sixty-four bits.
pub fn parse_u64(s: &str) -> (parsed: Option<u64>)
    ensures
        parsed is Some <==> s@.len() > 0 && all_dec_digits(s@) && dec_value(s@) <= u64::MAX,
        parsed is Some ==> parsed->0 as int == dec_value(s@),
{
    let len = s.unicode_len();
    if len == 0 {
        return None;
    }
    let mut acc: u64 = 0;
    let mut i: usize = 0;
    while i < len
        invariant
            0 <= i <= len,
            len == s@.len(),
            all_dec_digits(s@.take(i as int)),
            acc as int == dec_value(s@.take(i as int)),
        decreases len - i,
    {
        let c = s.get_char(i);
        let d: u64;
        if c == '0' {
            d = 0;
        } else if c == '1' {
            d = 1;
        } else if c == '2' {
            d = 2;
        } else if c == '3' {
            d = 3;
        } else if c == '4' {
            d = 4;
        } else if c == '5' {
            d = 5;
        } else if c == '6' {
            d = 6;
        } else if c == '7' {
            d = 7;
        } else if c == '8' {
            d = 8;
        } else if c == '9' {
            d = 9;
        } else {
            proof {
                assert(!is_dec_digit(s@[i as int]));
            }
            return None;
        }
        proof {
            assert(s@.take(i + 1).drop_last() =~= s@.take(i as int));
            assert(s@.take(i + 1).last() == s@[i as int]);
            assert(dec_value(s@.take(i + 1)) == acc * 10 + d);
        }
        if acc > u64::MAX / 10 {
            proof {
                lemma_dec_value_prefix_le(s@, i + 1);
            }
            return None;
        }
        acc = acc * 10;
        if d > u64::MAX - acc {
            proof {
                lemma_dec_value_prefix_le(s@, i + 1);
            }
            return None;
        }
        acc = acc + d;
        i += 1;
    }
    proof {
        assert(s@.take(len as int) =~= s@);
    }
    Some(acc)
}

/// The decimal rendering of a number parses back to the same number: the
/// rendering is nonempty, all digits, and denotes exactly the value it was
/// made from.
pub proof fn lemma_decimal_round_trip(n: u64)
    ensures
        u64_dec(n as nat).len() > 0,
        all_dec_digits(u64_dec(n as nat)),
        dec_value(u64_dec(n as nat)) == n,
{
    lemma_dec_value_of_u64_dec(n as nat);
}

proof fn lemma_dec_value_of_u64_dec(n: nat)
    ensures
        u64_dec(n).len() > 0,
        all_dec_digits(u64_dec(n)),
        dec_value(u64_dec(n)) == n,
    decreases n,
{
    assert(digit_val(dec_digit((n % 10) as int)) == (n % 10) as int);
    if n < 10 {
        assert(u64_dec(n) =~= seq![dec_digit(n as int)]);
        assert(u64_dec(n).drop_last() =~= Seq::<char>::empty());
        assert(digit_val(dec_digit(n as int)) == n as int);
        assert(u64_dec(n).last() == dec_digit(n as int));
        assert(dec_value(u64_dec(n)) == dec_value(u64_dec(n).drop_last()) * 10 + digit_val(
            u64_dec(n).last(),
        ));
        assert(dec_value(Seq::<char>::empty()) == 0);
    } else {
        lemma_dec_value_of_u64_dec(n / 10);
        assert(u64_dec(n).drop_last() =~= u64_dec(n / 10));
        assert(u64_dec(n).last() == dec_digit((n % 10) as int));
        assert(n == (n / 10) * 10 + n % 10);
        assert forall|i: int| 0 <= i < u64_dec(n).len() implies is_dec_digit(
            #[trigger] u64_dec(n)[i],
        ) by {
            if i < u64_dec(n / 10).len() {
                assert(u64_dec(n)[i] == u64_dec(n / 10)[i]);
            }
        }
    }
}

// ---------------------------------------------------------------------------
// JSON string escaping
// ---------------------------------------------------------------------------
/// The hexadecimal digit character for a value below sixteen.
pub open spec fn hex_digit(d: int) -> char {
    if d < 10 {
        dec_digit(d)
    } else if d == 10 {
        'a'
    } else if d == 11 {
        'b'
    } else if d == 12 {
        'c'
    } else if d == 13 {
        'd'
    } else if d == 14 {
        'e'
    } else {
        'f'
    }
}

/// How one character is written inside a JSON string literal: quotes and
/// backslashes are escaped, control characters take their short escape or the
/// four-digit form, and everything else stands for itself.
pub open spec fn json_escape_char(c: char) -> Seq<char> {
    if c == '"' {
        seq!['\\', '"']
    } else if c == '\\' {
        seq!['\\', '\\']
    } else if c == '\n' {
        seq!['\\', 'n']
    } else if c == '\r' {
        seq!['\\', 'r']
    } else if c == '\t' {
        seq!['\\', 't']
    } else if (c as u32) < 32 {
        seq!['\\', 'u', '0', '0', hex_digit((c as u32) as int / 16), hex_digit(
            (c as u32) as int % 16,
        )]
    } else {
        seq![c]
    }
}

/// The body of the JSON string literal denoting `s`.
pub open spec fn json_escape(s: Seq<char>) -> Seq<char>
    decreases s.len(),
{
    if s.len() == 0 {
        Seq::empty()
    } else {
        json_escape(s.drop_last()) + json_escape_char(s.last())
    }
}

/// The JSON string literal denoting `s`, quotes included.
pub open spec fn json_string(s: Seq<char>) -> Seq<char> {
    seq!['"'] + json_escape(s) + seq!['"']
}

fn hex_digit_char(d: u32) -> (c: char)
    requires
        d < 16,
    ensures
        c == hex_digit(d as int),
{
    match d {
        0 => '0',
        1 => '1',
        2 => '2',
        3 => '3',
        4 => '4',
        5 => '5',
        6 => '6',
        7 => '7',
        8 => '8',
        9 => '9',
        10 => 'a',
        11 => 'b',
        12 => 'c',
        13 => 'd',
        14 => 'e',
        _ => 'f',
    }
}

/// Append the JSON string literal denoting `s` to `out`.
pub fn append_json_string(out: &mut String, s: &str)
    ensures
        final(out)@ == old(out)@ + json_string(s@),
{
    let ghost base = old(out)@;
    push_char(out, '"');
    let len = s.unicode_len();
    let mut i: usize = 0;
    while i < len
        invariant
            0 <= i <= len,
            len == s@.len(),
            out@ == base.push('"') + json_escape(s@.take(i as int)),
        decreases len - i,
    {
        let ghost pre = out@;
        let c = s.get_char(i);
        if c == '"' {
            push_char(out, '\\');
            push_char(out, '"');
        } else if c == '\\' {
            push_char(out, '\\');
            push_char(out, '\\');
        } else if c == '\n' {
            push_char(out, '\\');
            push_char(out, 'n');
        } else if c == '\r' {
            push_char(out, '\\');
            push_char(out, 'r');
        } else if c == '\t' {
            push_char(out, '\\');
            push_char(out, 't');
        } else {
            let u = c as u32;
            if u < 32 {
                push_char(out, '\\');
                push_char(out, 'u');
                push_char(out, '0');
                push_char(out, '0');
                push_char(out, hex_digit_char(u / 16));
                push_char(out, hex_digit_char(u % 16));
            } else {
                push_char(out, c);
            }
        }
        proof {
            assert(out@ =~= pre + json_escape_char(s@[i as int]));
            assert(s@.take(i + 1).drop_last() =~= s@.take(i as int));
            assert(s@.take(i + 1).last() == s@[i as int]);
            assert(out@ =~= base.push('"') + json_escape(s@.take(i + 1)));
        }
        i += 1;
    }
    push_char(out, '"');
    proof {
        assert(s@.take(len as int) =~= s@);
        assert(out@ =~= base + json_string(s@));
    }
}

/// The canonical decimal rendering of `n`, with a minus sign when negative.
pub fn format_i64(n: i64) -> (s: String)
    ensures
        s@ == i64_dec(n as int),
{
    let mut s = String::new();
    if n < 0 {
        push_char(&mut s, '-');
        let magnitude: u64 = ((-(n + 1)) as u64) + 1;
        append_u64(&mut s, magnitude);
        proof {
            assert(s@ =~= seq!['-'] + u64_dec(magnitude as nat));
        }
    } else {
        append_u64(&mut s, n as u64);
    }
    s
}

} // verus!
