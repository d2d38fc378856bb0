//! Character-level text helpers shared by the game data parsers.

use vstd::prelude::*;

verus! {

/// Calls `String::push`: appends the character `c` to `s`.
#[verifier::external_body]
fn push_char(s: &mut String, c: char)
    ensures
        final(s)@ == old(s)@.push(c),
{
    s.push(c)
}

/// Whether `c` has the Unicode `White_Space` property, the set that `\s` of
/// regular expressions and `char::is_whitespace` both stand for.
pub open spec fn is_white_space(c: char) -> bool {
    let n = c as u32;
    ||| 0x09 <= n <= 0x0d
    ||| n == 0x20
    ||| n == 0x85
    ||| n == 0xa0
    ||| n == 0x1680
    ||| 0x2000 <= n <= 0x200a
    ||| n == 0x2028
    ||| n == 0x2029
    ||| n == 0x202f
    ||| n == 0x205f
    ||| n == 0x3000
}

/// Decides [`is_white_space`].
pub fn white_space(c: char) -> (res: bool)
    ensures
        res == is_white_space(c),
{
    let n = c as u32;
    (0x09 <= n && n <= 0x0d) || n == 0x20 || n == 0x85 || n == 0xa0 || n == 0x1680 || (0x2000
        <= n && n <= 0x200a) || n == 0x2028 || n == 0x2029 || n == 0x202f || n == 0x205f || n
        == 0x3000
}

/// The characters of `text`, in order.
pub fn chars_of(text: &str) -> (res: Vec<char>)
    ensures
        res@ == text@,
{
    let mut out: Vec<char> = Vec::new();
    for c in it: text.chars()
        invariant
            it.seq() == text@,
            out@ == it.seq().take(it.index() as int),
    {
        out.push(c);
    }
    out
}

/// Appends the text `t` to `s`.
pub fn append_str(s: &mut String, t: &str)
    ensures
        final(s)@ == old(s)@ + t@,
{
    let cs = chars_of(t);
    let ghost start = s@;
    let mut k: usize = 0;
    while k < cs.len()
        invariant
            k <= cs@.len(),
            cs@ == t@,
            s@ == start + cs@.take(k as int),
            start == old(s)@,
        decreases cs@.len() - k,
    {
        push_char(s, cs[k]);
        assert(cs@.take(k + 1) == cs@.take(k as int).push(cs@[k as int]));
        k = k + 1;
    }
    assert(cs@.take(cs@.len() as int) == cs@);
}

/// Appends the decimal spelling of `n` to `s`.
pub fn append_decimal(s: &mut String, n: u64)
    ensures
        final(s)@ == old(s)@ + crate::formats::decimal_text(n as nat),
{
    // The digits, least significant first.
    let mut digits: Vec<char> = Vec::new();
    let mut m: u64 = n;
    loop
        invariant_except_break
            crate::formats::decimal_text(n as nat) == crate::formats::decimal_text(m as nat)
                + digits@.reverse(),
        ensures
            crate::formats::decimal_text(n as nat) == digits@.reverse(),
        decreases m,
    {
        let d: u8 = (m % 10) as u8;
        let c: char = (48u8 + d) as char;
        proof {
            assert(digits@.push(c).reverse() =~= seq![c] + digits@.reverse());
        }
        if m < 10 {
            assert(crate::formats::decimal_text(m as nat) == seq![c]);
            digits.push(c);
            break ;
        }
        assert(crate::formats::decimal_text(m as nat) == crate::formats::decimal_text((m / 10) as nat)
            + seq![c]);
        digits.push(c);
        m = m / 10;
    }
    let ghost start = s@;
    let len = digits.len();
    let mut k: usize = len;
    while k > 0
        invariant
            k <= len == digits@.len(),
            s@ == start + digits@.reverse().take(len - k),
        decreases k,
    {
        k = k - 1;
        proof {
            assert(digits@.reverse().take(len - k) =~= digits@.reverse().take(len - k - 1).push(digits@[k as int]));
        }
        push_char(s, digits[k]);
    }
    assert(digits@.reverse().take(len as int) =~= digits@.reverse());
}

/// The text made of `chars[from..to]`.
pub fn string_of(chars: &[char], from: usize, to: usize) -> (res: String)
    requires
        from <= to <= chars@.len(),
    ensures
        res@ == chars@.subrange(from as int, to as int),
{
    let mut out = String::new();
    let mut k: usize = from;
    while k < to
        invariant
            from <= k <= to <= chars@.len(),
            out@ == chars@.subrange(from as int, k as int),
        decreases to - k,
    {
        push_char(&mut out, chars[k]);
        assert(chars@.subrange(from as int, k + 1) == chars@.subrange(from as int, k as int).push(
            chars@[k as int],
        ));
        k = k + 1;
    }
    out
}

} // verus!
