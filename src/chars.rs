//! ASCII letter and digit conversions on single characters and on text.
use vstd::prelude::*;
use vstd::string::*;

verus! {

/// Why a character conversion was refused.
#[derive(Debug, Clone, Copy, PartialEq, Eq, Structural)]
pub enum FuncError {
    NotAscii,
    NotDigit,
    NotBase16Digit,
    NotLetter,
    NotPrintable,
}

pub open spec fn is_lower(c: char) -> bool {
    'a' <= c && c <= 'z'
}

pub open spec fn is_upper(c: char) -> bool {
    'A' <= c && c <= 'Z'
}

pub open spec fn is_letter(c: char) -> bool {
    is_lower(c) || is_upper(c)
}

/// The upper-case form of an ASCII letter; any other character is kept.
pub open spec fn upper_of(c: char) -> char {
    if is_lower(c) {
        (((c as u32) - 32) as u8) as char
    } else {
        c
    }
}

/// The lower-case form of an ASCII letter; any other character is kept.
pub open spec fn lower_of(c: char) -> char {
    if is_upper(c) {
        (((c as u32) + 32) as u8) as char
    } else {
        c
    }
}

/// Relies on `String::push`: the character is appended at the end.
#[verifier::external_body]
fn push_char(s: &mut String, c: char)
    ensures
        final(s)@ == old(s)@.push(c),
{
    s.push(c);
}

/// The upper-case letter for `ch`, or `NotLetter` with `ch` itself.
pub fn to_uppercase(ch: char) -> (r: Result<char, (FuncError, char)>)
    ensures
        is_letter(ch) ==> r == Ok::<char, (FuncError, char)>(upper_of(ch)),
        !is_letter(ch) ==> r == Err::<char, (FuncError, char)>((FuncError::NotLetter, ch)),
{
    match to_uppercase_n(ch) {
        Ok(c) => Ok(c),
        Err(e) => Err((e, ch)),
    }
}

/// The lower-case letter for `ch`, or `NotLetter` with `ch` itself.
pub fn to_lowercase(ch: char) -> (r: Result<char, (FuncError, char)>)
    ensures
        is_letter(ch) ==> r == Ok::<char, (FuncError, char)>(lower_of(ch)),
        !is_letter(ch) ==> r == Err::<char, (FuncError, char)>((FuncError::NotLetter, ch)),
{
    match to_lowercase_n(ch) {
        Ok(c) => Ok(c),
        Err(e) => Err((e, ch)),
    }
}

/// The upper-case letter for `ch`, or `NotLetter`.
pub fn to_uppercase_n(ch: char) -> (r: Result<char, FuncError>)
    ensures
        is_letter(ch) ==> r == Ok::<char, FuncError>(upper_of(ch)),
        !is_letter(ch) ==> r == Err::<char, FuncError>(FuncError::NotLetter),
{
    if 'a' <= ch && ch <= 'z' {
        Ok((((ch as u32) - 32) as u8) as char)
    } else if 'A' <= ch && ch <= 'Z' {
        Ok(ch)
    } else {
        Err(FuncError::NotLetter)
    }
}

/// The lower-case letter for `ch`, or `NotLetter`.
pub fn to_lowercase_n(ch: char) -> (r: Result<char, FuncError>)
    ensures
        is_letter(ch) ==> r == Ok::<char, FuncError>(lower_of(ch)),
        !is_letter(ch) ==> r == Err::<char, FuncError>(FuncError::NotLetter),
{
    if 'A' <= ch && ch <= 'Z' {
        Ok((((ch as u32) + 32) as u8) as char)
    } else if 'a' <= ch && ch <= 'z' {
        Ok(ch)
    } else {
        Err(FuncError::NotLetter)
    }
}

/// The value of a decimal digit; `NotAscii` for a character beyond ASCII and
/// `NotDigit` for any other non-digit.
pub fn char_to_number(ch: char) -> (r: Result<u8, (FuncError, char)>)
    ensures
        '0' <= ch <= '9' ==> r == Ok::<u8, (FuncError, char)>((ch as u32 - '0' as u32) as u8),
        (ch as u32) >= 128 ==> r == Err::<u8, (FuncError, char)>((FuncError::NotAscii, ch)),
        (ch as u32) < 128 && !('0' <= ch <= '9') ==> r == Err::<u8, (FuncError, char)>(
            (FuncError::NotDigit, ch),
        ),
{
    if (ch as u32) >= 128 {
        return Err((FuncError::NotAscii, ch));
    }
    if '0' <= ch && ch <= '9' {
        Ok(((ch as u32) - ('0' as u32)) as u8)
    } else {
        Err((FuncError::NotDigit, ch))
    }
}

/// The value of a hexadecimal digit written `0-9` or `A-F`; `NotAscii` for a
/// character beyond ASCII and `NotBase16Digit` for any other character.
pub fn char_to_number_hex(ch: char) -> (r: Result<u8, (FuncError, char)>)
    ensures
        '0' <= ch <= '9' ==> r == Ok::<u8, (FuncError, char)>((ch as u32 - '0' as u32) as u8),
        'A' <= ch <= 'F' ==> r == Ok::<u8, (FuncError, char)>(
            (ch as u32 - 'A' as u32 + 10) as u8,
        ),
        (ch as u32) >= 128 ==> r == Err::<u8, (FuncError, char)>((FuncError::NotAscii, ch)),
        (ch as u32) < 128 && !('0' <= ch <= '9') && !('A' <= ch <= 'F') ==> r == Err::<
            u8,
            (FuncError, char),
        >((FuncError::NotBase16Digit, ch)),
{
    if (ch as u32) >= 128 {
        return Err((FuncError::NotAscii, ch));
    }
    if '0' <= ch && ch <= '9' {
        Ok(((ch as u32) - ('0' as u32)) as u8)
    } else if 'A' <= ch && ch <= 'F' {
        Ok(((ch as u32) - ('A' as u32) + 10) as u8)
    } else {
        Err((FuncError::NotBase16Digit, ch))
    }
}

/// Every character of `text` made upper case, or `NotLetter` when one of
/// them is not an ASCII letter.
pub fn text_to_uppercase(text: &str) -> (r: Result<String, FuncError>)
    ensures
        (forall|i: int| 0 <= i < text@.len() ==> is_letter(#[trigger] text@[i])) ==> (r matches Ok(
            s,
        ) && s@ == text@.map_values(|c: char| upper_of(c))),
        (exists|i: int| 0 <= i < text@.len() && !is_letter(#[trigger] text@[i])) ==> r
            == Err::<String, FuncError>(FuncError::NotLetter),
{
    let n = text.unicode_len();
    let mut out = String::new();
    let mut i: usize = 0;
    while i < n
        invariant
            n == text@.len(),
            i <= n,
            forall|k: int| 0 <= k < i ==> is_letter(#[trigger] text@[k]),
            out@ == text@.subrange(0, i as int).map_values(|c: char| upper_of(c)),
        decreases n - i,
    {
        let c = text.get_char(i);
        match to_uppercase_n(c) {
            Ok(u) => push_char(&mut out, u),
            Err(e) => {
                return Err(e);
            },
        }
        i = i + 1;
        assert(text@.subrange(0, i as int) =~= text@.subrange(0, i - 1).push(c));
        assert(out@ =~= text@.subrange(0, i as int).map_values(|c: char| upper_of(c)));
    }
    assert(text@.subrange(0, n as int) =~= text@);
    Ok(out)
}

/// Every character of `text` made lower case, or `NotLetter` when one of
/// them is not an ASCII letter.
pub fn text_to_lowercase(text: &str) -> (r: Result<String, FuncError>)
    ensures
        (forall|i: int| 0 <= i < text@.len() ==> is_letter(#[trigger] text@[i])) ==> (r matches Ok(
            s,
        ) && s@ == text@.map_values(|c: char| lower_of(c))),
        (exists|i: int| 0 <= i < text@.len() && !is_letter(#[trigger] text@[i])) ==> r
            == Err::<String, FuncError>(FuncError::NotLetter),
{
    let n = text.unicode_len();
    let mut out = String::new();
    let mut i: usize = 0;
    while i < n
        invariant
            n == text@.len(),
            i <= n,
            forall|k: int| 0 <= k < i ==> is_letter(#[trigger] text@[k]),
            out@ == text@.subrange(0, i as int).map_values(|c: char| lower_of(c)),
        decreases n - i,
    {
        let c = text.get_char(i);
        match to_lowercase_n(c) {
            Ok(u) => push_char(&mut out, u),
            Err(e) => {
                return Err(e);
            },
        }
        i = i + 1;
        assert(text@.subrange(0, i as int) =~= text@.subrange(0, i - 1).push(c));
        assert(out@ =~= text@.subrange(0, i as int).map_values(|c: char| lower_of(c)));
    }
    assert(text@.subrange(0, n as int) =~= text@);
    Ok(out)
}

/// `s` followed by `x` copies of `c` (none when `x` is not positive).
pub fn add_chars_n(s: String, c: char, x: i32) -> (r: String)
    ensures
        r@ == s@ + Seq::new(if x > 0 { x as nat } else { 0 }, |_i: int| c),
{
    let mut s = s;
    let ghost start = s@;
    let mut i: i32 = 0;
    while i < x
        invariant
            0 <= i,
            x > 0 ==> i <= x,
            x <= 0 ==> i == 0,
            s@ == start + Seq::new(i as nat, |_k: int| c),
        decreases x - i,
    {
        push_char(&mut s, c);
        i = i + 1;
        assert(s@ =~= start + Seq::new(i as nat, |_k: int| c));
    }
    assert(s@ =~= start + Seq::new(if x > 0 { x as nat } else { 0 }, |_i: int| c));
    s
}

/// `s` followed by `c`.
pub fn add_str(s: String, c: &str) -> (r: String)
    ensures
        r@ == s@ + c@,
{
    let mut s = s;
    s.append(c);
    s
}

} // verus!
