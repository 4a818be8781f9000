//! Text utilities: decimal formatting, truncation, random strings.

use vstd::prelude::*;
use vstd::string::*;
use vstd::utf8::*;

verus! {

/// The character of a decimal digit.
pub open spec fn digit_char(d: int) -> char {
    ('0' as int + d) as char
}

/// The decimal digits of a natural number, most significant first.
pub open spec fn digits(n: nat) -> Seq<char>
    decreases n,
{
    if n < 10 {
        seq![digit_char(n as int)]
    } else {
        digits(n / 10).push(digit_char((n % 10) as int))
    }
}

/// The decimal form of an integer, as `Display` writes it.
pub open spec fn decimal(i: int) -> Seq<char> {
    if i < 0 {
        seq!['-'] + digits((-i) as nat)
    } else {
        digits(i as nat)
    }
}

/// The text of one decimal digit.
fn digit_text(d: u64) -> (t: &'static str)
    requires
        d < 10,
    ensures
        t@ == seq![digit_char(d as int)],
{
    proof {
        reveal_strlit("0");
        reveal_strlit("1");
        reveal_strlit("2");
        reveal_strlit("3");
        reveal_strlit("4");
        reveal_strlit("5");
        reveal_strlit("6");
        reveal_strlit("7");
        reveal_strlit("8");
        reveal_strlit("9");
    }
    match d {
        0 => "0",
        1 => "1",
        2 => "2",
        3 => "3",
        4 => "4",
        5 => "5",
        6 => "6",
        7 => "7",
        8 => "8",
        _ => "9",
    }
}

/// Append the decimal digits of `m` to `s`.
fn append_digits(s: &mut String, m: u64)
    ensures
        final(s)@ == old(s)@ + digits(m as nat),
    decreases m,
{
    if m >= 10 {
        append_digits(s, m / 10);
        s.append(digit_text(m % 10));
        assert(digits(m as nat) == digits((m / 10) as nat).push(digit_char((m % 10) as int)));
    } else {
        s.append(digit_text(m));
    }
}

/// The decimal form of an integer.
pub fn format_decimal(n: i64) -> (s: String)
    ensures
        s@ == decimal(n as int),
{
    let mut s = String::new();
    if n < 0 {
        s.append("-");
        let m: u64 = (-(n as i128)) as u64;
        append_digits(&mut s, m);
        proof {
            reveal_strlit("-");
        }
    } else {
        append_digits(&mut s, n as u64);
    }
    s
}

/// Calls `rand::Rng::gen_range` on the thread's generator with the range
/// `0..upper`. The value depends on chance; the contract claims only that it
/// lies in the range. An empty range is excluded: the crate panics on it.
#[verifier::external_body]
fn random_index(upper: usize) -> (i: usize)
    requires
        upper > 0,
    ensures
        i < upper,
{
    rand::Rng::gen_range(&mut rand::thread_rng(), 0..upper)
}

/// An ASCII letter or digit.
pub open spec fn is_ascii_alphanumeric(c: char) -> bool {
    ('A' <= c && c <= 'Z') || ('a' <= c && c <= 'z') || ('0' <= c && c <= '9')
}

/// String utilities for text processing.
pub struct StringUtils;

impl StringUtils {
    /// Generate a random string of the given length, of ASCII letters and digits.
    pub fn random_string(length: usize) -> (r: String)
        ensures
            r@.len() == length,
            forall|i: int| 0 <= i < length ==> is_ascii_alphanumeric(#[trigger] r@[i]),
    {
        let charset = "ABCDEFGHIJKLMNOPQRSTUVWXYZabcdefghijklmnopqrstuvwxyz0123456789";
        proof {
            reveal_strlit("ABCDEFGHIJKLMNOPQRSTUVWXYZabcdefghijklmnopqrstuvwxyz0123456789");
        }
        assert(charset@.len() == 62);
        assert forall|k: int| 0 <= k < 62 implies is_ascii_alphanumeric(#[trigger] charset@[k]) by {
            assert(charset@ == seq![
                'A', 'B', 'C', 'D', 'E', 'F', 'G', 'H', 'I', 'J', 'K', 'L', 'M', 'N', 'O', 'P', 'Q', 'R',
                'S', 'T', 'U', 'V', 'W', 'X', 'Y', 'Z', 'a', 'b', 'c', 'd', 'e', 'f', 'g', 'h', 'i', 'j',
                'k', 'l', 'm', 'n', 'o', 'p', 'q', 'r', 's', 't', 'u', 'v', 'w', 'x', 'y', 'z', '0', '1',
                '2', '3', '4', '5', '6', '7', '8', '9',
            ]);
        }
        let mut r = String::new();
        let mut i: usize = 0;
        while i < length
            invariant
                i <= length,
                charset@.len() == 62,
                forall|k: int| 0 <= k < 62 ==> is_ascii_alphanumeric(#[trigger] charset@[k]),
                r@.len() == i,
                forall|k: int| 0 <= k < i ==> is_ascii_alphanumeric(#[trigger] r@[k]),
            decreases length - i,
        {
            let idx = random_index(62);
            let c = charset.substring_char(idx, idx + 1);
            let ghost before = r@;
            r.append(c);
            assert(r@[i as int] == charset@[idx as int]);
            assert forall|k: int| 0 <= k < i + 1 implies is_ascii_alphanumeric(#[trigger] r@[k]) by {
                if k < i {
                    assert(r@[k] == before[k]);
                }
            }
            i = i + 1;
        }
        r
    }

    /// Truncate a string to at most `max_length` bytes, ending it with an
    /// ellipsis: a string that fits is returned unchanged; otherwise, when
    /// `max_length` is at least 3, its first `max_length - 3` bytes are
    /// followed by "...", and below that the ellipsis itself is cut to
    /// `max_length` dots. The cut must fall on a character boundary.
    pub fn truncate_with_ellipsis(s: &str, max_length: usize) -> (r: String)
        requires
            s.spec_bytes().len() <= usize::MAX,
            s.spec_bytes().len() <= max_length || max_length < 3 || is_char_boundary(
                s.spec_bytes(),
                max_length - 3,
            ),
        ensures
            r@ == if s.spec_bytes().len() <= max_length {
                s@
            } else if max_length >= 3 {
                decode_utf8(s.spec_bytes().subrange(0, max_length - 3)) + seq!['.', '.', '.']
            } else {
                seq!['.', '.', '.'].take(max_length as int)
            },
    {
        proof {
            reveal_strlit("...");
            assert("..."@ =~= seq!['.', '.', '.']);
        }
        if s.len() <= max_length {
            String::from_str(s)
        } else if max_length >= 3 {
            let cut = max_length - 3;
            let (head, _) = s.split_at(cut);
            proof {
                broadcast use vstd::utf8::encode_utf8_decode_utf8;
                assert(decode_utf8(encode_utf8(head@)) == head@);
                assert(head.spec_bytes() == s.spec_bytes().subrange(0, cut as int));
            }
            let mut r = String::from_str(head);
            r.append("...");
            r
        } else {
            let dots = "...";
            let r = String::from_str(dots.substring_char(0, max_length));
            proof {
                assert(r@ =~= seq!['.', '.', '.'].take(max_length as int));
            }
            r
        }
    }
}

} // verus!
