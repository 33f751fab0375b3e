//! Small string builders: repeated characters, appended text, a grouped
//! decimal rendering of integers, ASCII case changes, digit values, and a
//! rotation cipher.

use vstd::prelude::*;

verus! {

/// Relies on String::push: it appends exactly the one character.
#[verifier::external_body]
fn push_char(s: &mut String, c: char)
    ensures
        final(s)@ == old(s)@.push(c),
{
    s.push(c);
}

/// `n` copies of `ch`.
pub open spec fn spec_repeat(ch: char, n: nat) -> Seq<char> {
    Seq::new(n, |i: int| ch)
}

/// `s` with `n` copies of `ch` appended, by value.
pub fn add_chars_n(s: String, ch: char, n: u32) -> (r: String)
    ensures
        r@ == s@ + spec_repeat(ch, n as nat),
{
    let mut r = s;
    add_chars_n_ref(&mut r, ch, n);
    r
}

/// Append `n` copies of `ch` in place.
pub fn add_chars_n_ref(s: &mut String, ch: char, n: u32)
    ensures
        final(s)@ == old(s)@ + spec_repeat(ch, n as nat),
{
    let mut i: u32 = 0;
    while i < n
        invariant
            i <= n,
            s@ == old(s)@ + spec_repeat(ch, i as nat),
        decreases n - i,
    {
        push_char(s, ch);
        proof {
            assert(s@ =~= old(s)@ + spec_repeat(ch, i as nat + 1));
        }
        i += 1;
    }
}

/// Append `n` spaces in place.
pub fn add_space(str: &mut String, n: u32)
    ensures
        final(str)@ == old(str)@ + spec_repeat(' ', n as nat),
{
    add_chars_n_ref(str, ' ', n);
}

/// Append a string slice in place.
pub fn add_str(str: &mut String, new_str: &str)
    ensures
        final(str)@ == old(str)@ + new_str@,
{
    str.append(new_str);
}

/// The character of the decimal digit `d`.
pub open spec fn spec_digit_char(d: nat) -> char {
    ((48 + d) as u8) as char
}

/// The decimal digits of `n`, most significant first; empty for zero.
pub open spec fn spec_plain_digits(n: nat) -> Seq<char>
    decreases n,
{
    if n == 0 {
        Seq::empty()
    } else {
        spec_plain_digits(n / 10).push(spec_digit_char(n % 10))
    }
}

/// Exactly three decimal digits of `n < 1000`, zero-padded.
pub open spec fn spec_pad3(n: nat) -> Seq<char> {
    seq![
        spec_digit_char(n / 100),
        spec_digit_char((n / 10) % 10),
        spec_digit_char(n % 10),
    ]
}

/// The decimal digits of `n` with an underscore between each group of three
/// counted from the right; empty for zero.
pub open spec fn spec_grouped_digits(n: nat) -> Seq<char>
    decreases n,
{
    if n == 0 {
        Seq::empty()
    } else if n < 1000 {
        spec_plain_digits(n)
    } else {
        spec_grouped_digits(n / 1000) + seq!['_'] + spec_pad3(n % 1000)
    }
}

/// The rendering `add_integer` appends: a minus sign for negative values,
/// then the grouped digits of the magnitude — so nothing at all for zero.
pub open spec fn spec_int_text(v: int) -> Seq<char> {
    if v < 0 {
        seq!['-'] + spec_grouped_digits((-v) as nat)
    } else {
        spec_grouped_digits(v as nat)
    }
}

/// Append the decimal digits of `n`, most significant first.
fn append_plain(s: &mut String, n: u32)
    ensures
        final(s)@ == old(s)@ + spec_plain_digits(n as nat),
    decreases n,
{
    if n == 0 {
        proof {
            assert(s@ =~= s@ + spec_plain_digits(0));
        }
        return ;
    }
    append_plain(s, n / 10);
    push_char(s, (48 + (n % 10) as u8) as char);
    proof {
        assert(s@ =~= old(s)@ + spec_plain_digits(n as nat));
    }
}

/// Append exactly three digits of `n < 1000`, zero-padded.
fn append_pad3(s: &mut String, n: u32)
    requires
        n < 1000,
    ensures
        final(s)@ == old(s)@ + spec_pad3(n as nat),
{
    push_char(s, (48 + (n / 100) as u8) as char);
    push_char(s, (48 + ((n / 10) % 10) as u8) as char);
    push_char(s, (48 + (n % 10) as u8) as char);
    proof {
        assert(s@ =~= old(s)@ + spec_pad3(n as nat));
    }
}

/// Append the grouped digits of `n`.
fn append_grouped(s: &mut String, n: u32)
    ensures
        final(s)@ == old(s)@ + spec_grouped_digits(n as nat),
    decreases n,
{
    if n == 0 {
        proof {
            assert(s@ =~= s@ + spec_grouped_digits(0));
        }
        return ;
    }
    if n < 1000 {
        append_plain(s, n);
        return ;
    }
    append_grouped(s, n / 1000);
    push_char(s, '_');
    append_pad3(s, n % 1000);
    proof {
        assert(s@ =~= old(s)@ + spec_grouped_digits(n as nat));
    }
}

/// Append `value` in decimal with an underscore between each group of three
/// digits from the right, and a leading minus sign when negative. Zero
/// appends nothing.
pub fn add_integer(str: &mut String, value: i32)
    requires
        value > i32::MIN,
    ensures
        final(str)@ == old(str)@ + spec_int_text(value as int),
{
    if value < 0 {
        push_char(str, '-');
        let magnitude = (-(value as i64)) as u32;
        append_grouped(str, magnitude);
        proof {
            assert(str@ =~= old(str)@ + spec_int_text(value as int));
        }
    } else {
        append_grouped(str, value as u32);
    }
}

/// The character errors the digit and case helpers report.
#[derive(PartialEq, Eq, Structural, Clone, Copy, Debug)]
pub enum CharError {
    Ascii,
    Digit,
    Base16Digit,
    Letter,
    Printable,
}

/// The ASCII upper-case counterpart of a lower-case letter; the letter error
/// for anything else.
pub fn to_uppercase(c: char) -> (r: Result<char, CharError>)
    ensures
        r is Ok <==> 97 <= c as u32 <= 122,
        r matches Ok(u) ==> u as u32 == c as u32 - 32,
        r matches Err(e) ==> e == CharError::Letter,
{
    let v = c as u32;
    if v < 97 || v > 122 {
        Err(CharError::Letter)
    } else {
        Ok(((v - 32) as u8) as char)
    }
}

/// The ASCII lower-case counterpart of an upper-case letter; the letter
/// error for anything else.
pub fn to_lowercase(c: char) -> (r: Result<char, CharError>)
    ensures
        r is Ok <==> 65 <= c as u32 <= 90,
        r matches Ok(u) ==> u as u32 == c as u32 + 32,
        r matches Err(e) ==> e == CharError::Letter,
{
    let v = c as u32;
    if v < 65 || v > 90 {
        Err(CharError::Letter)
    } else {
        Ok(((v + 32) as u8) as char)
    }
}

/// The value of a decimal digit character; the ASCII error for a character
/// beyond ASCII, the digit error for any other ASCII character.
pub fn char_to_number(c: char) -> (r: Result<u32, CharError>)
    ensures
        r is Ok <==> 48 <= c as u32 <= 57,
        r matches Ok(v) ==> v == c as u32 - 48,
        r matches Err(e) ==> e == if c as u32 >= 128 {
            CharError::Ascii
        } else {
            CharError::Digit
        },
{
    let v = c as u32;
    if v >= 128 {
        Err(CharError::Ascii)
    } else if v < 48 || v > 57 {
        Err(CharError::Digit)
    } else {
        Ok(v - 48)
    }
}

/// The value of an upper-case hexadecimal digit character. Characters above
/// 'F' get the base-16 error; the remaining non-digit characters are not
/// accepted at all.
pub fn char_to_number_hex(c: char) -> (r: Result<u32, CharError>)
    requires
        c as u32 > 70 || 48 <= c as u32 <= 57 || 65 <= c as u32 <= 70,
    ensures
        r is Ok <==> (48 <= c as u32 <= 57 || 65 <= c as u32 <= 70),
        r matches Ok(v) ==> v == if c as u32 <= 57 {
            c as u32 - 48
        } else {
            c as u32 - 55
        },
        r matches Err(e) ==> e == CharError::Base16Digit,
{
    let v = c as u32;
    if v > 70 {
        Err(CharError::Base16Digit)
    } else if v >= 65 {
        Ok(v - 55)
    } else {
        Ok(v - 48)
    }
}

/// The rotation-by-13 counterpart of an ASCII letter; other characters stay
/// as they are.
pub open spec fn spec_rot13(c: char) -> char {
    if 65 <= c as u32 <= 90 {
        ((((c as u32 - 65) + 13) % 26 + 65) as u8) as char
    } else if 97 <= c as u32 <= 122 {
        ((((c as u32 - 97) + 13) % 26 + 97) as u8) as char
    } else {
        c
    }
}

/// Rotate every letter of an ASCII-alphabetic string by thirteen places;
/// any other character makes the whole input unacceptable.
pub fn p2(s: &str) -> (r: Result<String, CharError>)
    ensures
        r is Ok <==> (forall|i: int|
            0 <= i < s@.len() ==> {
                let c = #[trigger] s@[i];
                65 <= c as u32 <= 90 || 97 <= c as u32 <= 122
            }),
        r matches Ok(t) ==> t@ == Seq::new(s@.len(), |i: int| spec_rot13(s@[i])),
        r matches Err(e) ==> e == CharError::Letter,
{
    let len = s.unicode_len();
    let mut out = String::new();
    let mut i: usize = 0;
    while i < len
        invariant
            i <= len,
            len == s@.len(),
            out@ == Seq::new(i as nat, |k: int| spec_rot13(s@[k])),
            forall|k: int|
                0 <= k < i ==> {
                    let c = #[trigger] s@[k];
                    65 <= c as u32 <= 90 || 97 <= c as u32 <= 122
                },
        decreases len - i,
    {
        let c = s.get_char(i);
        let v = c as u32;
        if 65 <= v && v <= 90 {
            push_char(&mut out, ((((v - 65) + 13) % 26 + 65) as u8) as char);
        } else if 97 <= v && v <= 122 {
            push_char(&mut out, ((((v - 97) + 13) % 26 + 97) as u8) as char);
        } else {
            return Err(CharError::Letter);
        }
        proof {
            assert(out@ =~= Seq::new(i as nat + 1, |k: int| spec_rot13(s@[k])));
        }
        i += 1;
    }
    proof {
        assert(out@ =~= Seq::new(s@.len(), |k: int| spec_rot13(s@[k])));
    }
    Ok(out)
}

} // verus!
