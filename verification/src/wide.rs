use vstd::prelude::*;

verus! {

/// A UTF-16 code unit that opens a surrogate pair.
pub open spec fn is_high_surrogate(u: u16) -> bool {
    0xD800 <= u <= 0xDBFF
}

/// A UTF-16 code unit that closes a surrogate pair.
pub open spec fn is_low_surrogate(u: u16) -> bool {
    0xDC00 <= u <= 0xDFFF
}

/// The scalar value that a surrogate pair stands for.
pub open spec fn pair_scalar(hi: u16, lo: u16) -> u32 {
    (0x10000 + (hi - 0xD800) * 0x400 + (lo - 0xDC00)) as u32
}

/// Decodes UTF-16: a unit outside the surrogate range is a character of its
/// own, a high surrogate followed by a low one is one character, and any
/// other surrogate makes the sequence invalid (`None`).
pub open spec fn utf16_decode(units: Seq<u16>) -> Option<Seq<char>>
    decreases units.len(),
{
    if units.len() == 0 {
        Some(Seq::empty())
    } else if !is_high_surrogate(units[0]) && !is_low_surrogate(units[0]) {
        match utf16_decode(units.drop_first()) {
            Some(rest) => Some(seq![(units[0] as u32) as char] + rest),
            None => None,
        }
    } else if is_high_surrogate(units[0]) && units.len() >= 2 && is_low_surrogate(units[1]) {
        match utf16_decode(units.subrange(2, units.len() as int)) {
            Some(rest) => Some(seq![pair_scalar(units[0], units[1]) as char] + rest),
            None => None,
        }
    } else {
        None
    }
}

/// The UTF-16 code units of one character: the scalar itself below 0x10000,
/// else a high and a low surrogate.
pub open spec fn utf16_units_of(c: char) -> Seq<u16> {
    let v = c as u32;
    if v < 0x10000 {
        seq![v as u16]
    } else {
        seq![(0xD800 + (v - 0x10000) / 0x400) as u16, (0xDC00 + (v - 0x10000) % 0x400) as u16]
    }
}

/// Encodes characters as UTF-16.
pub open spec fn utf16_encode(chars: Seq<char>) -> Seq<u16>
    decreases chars.len(),
{
    if chars.len() == 0 {
        Seq::empty()
    } else {
        utf16_units_of(chars[0]) + utf16_encode(chars.drop_first())
    }
}

/// Decoding what was encoded gives the characters back.
pub proof fn lemma_utf16_decode_encode(chars: Seq<char>)
    ensures
        utf16_decode(utf16_encode(chars)) == Some(chars),
    decreases chars.len(),
{
    if chars.len() > 0 {
        let c = chars[0];
        let v = c as u32;
        let rest = chars.drop_first();
        let u = utf16_encode(chars);
        lemma_utf16_decode_encode(rest);
        vstd::utf8::char_is_scalar(c);
        vstd::utf8::char_u32_cast(c, v);
        assert(vstd::utf8::is_scalar(v));
        if v < 0x10000 {
            assert(u.drop_first() =~= utf16_encode(rest));
            assert(((u[0] as u32) as char) == c);
        } else {
            let w = (v - 0x10000) as int;
            let hi = (0xD800 + w / 0x400) as u16;
            let lo = (0xDC00 + w % 0x400) as u16;
            assert(w == (w / 0x400) * 0x400 + w % 0x400) by (nonlinear_arith);
            assert(0 <= w % 0x400 < 0x400) by (nonlinear_arith);
            assert(0 <= w / 0x400 < 0x400) by (nonlinear_arith)
                requires
                    0 <= w < 0x100000,
            ;
            assert(u[0] == hi);
            assert(u[1] == lo);
            assert(pair_scalar(hi, lo) == v);
            assert(u.subrange(2, u.len() as int) =~= utf16_encode(rest));
        }
        assert(seq![c] + rest =~= chars);
    }
}

/// Encoding what was decoded gives the code units back: valid UTF-16 has
/// exactly one encoding.
pub proof fn lemma_utf16_encode_decode(units: Seq<u16>)
    requires
        utf16_decode(units) is Some,
    ensures
        utf16_encode(utf16_decode(units)->0) == units,
    decreases units.len(),
{
    if units.len() > 0 {
        let chars = utf16_decode(units)->0;
        if !is_high_surrogate(units[0]) && !is_low_surrogate(units[0]) {
            let rest = units.drop_first();
            lemma_utf16_encode_decode(rest);
            let x = units[0] as u32;
            assert(vstd::utf8::is_scalar(x));
            assert(((x as char) as u32) == x);
            assert(chars.drop_first() =~= utf16_decode(rest)->0);
            assert(units =~= utf16_units_of(chars[0]) + utf16_encode(chars.drop_first()));
        } else {
            let rest = units.subrange(2, units.len() as int);
            lemma_utf16_encode_decode(rest);
            let x = pair_scalar(units[0], units[1]);
            assert(vstd::utf8::is_scalar(x));
            assert(((x as char) as u32) == x);
            let w = (x - 0x10000) as int;
            let q = (units[0] - 0xD800) as int;
            let r = (units[1] - 0xDC00) as int;
            assert(w == q * 0x400 + r);
            assert(w / 0x400 == q && w % 0x400 == r) by (nonlinear_arith)
                requires
                    w == q * 0x400 + r,
                    0 <= r < 0x400,
                    0 <= q,
            ;
            assert(chars.drop_first() =~= utf16_decode(rest)->0);
            assert(units =~= utf16_units_of(chars[0]) + utf16_encode(chars.drop_first()));
        }
    }
}

/// Decodes UTF-16 code units with `String::from_utf16`, which fails exactly
/// on unpaired surrogates and otherwise yields the decoded characters.
#[verifier::external_body]
fn string_from_utf16(units: &[u16]) -> (r: Option<String>)
    ensures
        r is Some <==> utf16_decode(units@) is Some,
        r matches Some(s) ==> utf16_decode(units@) == Some(s@),
{
    String::from_utf16(units).ok()
}

/// The UTF-16 encoding of `chars` is that of all but the last character,
/// then the units of the last.
proof fn lemma_utf16_encode_push(chars: Seq<char>, c: char)
    ensures
        utf16_encode(chars.push(c)) == utf16_encode(chars) + utf16_units_of(c),
    decreases chars.len(),
{
    if chars.len() == 0 {
        let one = chars.push(c);
        assert(one.drop_first() =~= Seq::<char>::empty());
        assert(one[0] == c);
        assert(utf16_encode(Seq::<char>::empty()) == Seq::<u16>::empty());
        assert(utf16_encode(one) == utf16_units_of(c) + utf16_encode(one.drop_first()));
        assert(utf16_encode(one) =~= utf16_units_of(c));
        assert(utf16_encode(chars) =~= Seq::<u16>::empty());
    } else {
        lemma_utf16_encode_push(chars.drop_first(), c);
        assert(chars.push(c).drop_first() =~= chars.drop_first().push(c));
        assert(utf16_encode(chars.push(c)) =~= utf16_encode(chars) + utf16_units_of(c));
    }
}

/// Encodes a string as UTF-16 code units.
fn string_to_utf16(s: &str) -> (r: Vec<u16>)
    ensures
        r@ == utf16_encode(s@),
{
    broadcast use vstd::string::axiom_spec_iter;

    let mut out: Vec<u16> = Vec::new();
    assert(s@.take(s@.len() as int) =~= s@);
    for c in iter: s.chars()
        invariant
            iter.seq() == s@,
            s@.take(s@.len() as int) == s@,
            out@ == utf16_encode(iter.seq().take(iter.index() as int)),
    {
        let ghost done = iter.seq().take(iter.index() as int);
        let v = c as u32;
        if v < 0x10000 {
            out.push(v as u16);
        } else {
            let w = v - 0x10000;
            out.push((0xD800 + w / 0x400) as u16);
            out.push((0xDC00 + w % 0x400) as u16);
        }
        proof {
            lemma_utf16_encode_push(done, c);
            assert(iter.seq().take(iter.index() + 1) =~= done.push(c));
        }
    }
    out
}

/// Why wide strings from the C interface could not be read.
#[derive(Debug, Clone, Copy, PartialEq, Eq, Structural)]
pub enum WideError {
    /// The code units are not valid UTF-16.
    InvalidUtf16,
    /// A list of strings was given a negative length.
    InvalidLength(i32),
}

/// The value the C functions return on success.
pub const SUCCESS: i32 = 0;

/// The value the C functions return on failure.
pub const FAILURE: i32 = 1;

/// Decodes the UTF-16 code units of a wide string (those before its
/// terminating zero).
pub fn wchar_to_string(units: &[u16]) -> (r: Result<String, WideError>)
    ensures
        utf16_decode(units@) is None ==> r == Err::<String, WideError>(WideError::InvalidUtf16),
        utf16_decode(units@) matches Some(chars) ==> (r matches Ok(s) && s@ == chars),
{
    match string_from_utf16(units) {
        Some(s) => Ok(s),
        None => Err(WideError::InvalidUtf16),
    }
}

/// How many entries a list of wide strings has: a negative length is an
/// error; a null list, or a length of zero, has no entries.
pub fn wchar_arr_count(len: i32, is_null: bool) -> (r: Result<usize, WideError>)
    ensures
        len < 0 ==> r == Err::<usize, WideError>(WideError::InvalidLength(len)),
        len >= 0 && is_null ==> r == Ok::<usize, WideError>(0),
        len >= 0 && !is_null ==> r == Ok::<usize, WideError>(len as usize),
{
    if len < 0 {
        return Err(WideError::InvalidLength(len));
    }
    if is_null || len == 0 {
        return Ok(0);
    }
    Ok(len as usize)
}

/// An entry of a list of wide strings that is present and not valid UTF-16.
pub open spec fn entry_invalid(entry: Option<Vec<u16>>) -> bool {
    match entry {
        Some(u) => utf16_decode(u@) is None,
        None => false,
    }
}

/// `decoded` is what the entry decodes to: nothing for a missing entry, the
/// decoded string for a present one.
pub open spec fn entry_decodes_to(entry: Option<Vec<u16>>, decoded: Option<String>) -> bool {
    match entry {
        Some(u) => decoded matches Some(s) && utf16_decode(u@) == Some(s@),
        None => decoded is None,
    }
}

/// Decodes each entry of a list of wide strings; a missing entry stays
/// missing. An entry that is not valid UTF-16 makes the whole list fail.
pub fn wchar_arr_to_vec(items: &[Option<Vec<u16>>]) -> (r: Result<Vec<Option<String>>, WideError>)
    ensures
        (exists|i: int| 0 <= i < items@.len() && entry_invalid(#[trigger] items@[i])) ==> r == Err::<
            Vec<Option<String>>,
            WideError,
        >(WideError::InvalidUtf16),
        (forall|i: int| 0 <= i < items@.len() ==> !entry_invalid(#[trigger] items@[i])) ==> (r matches Ok(
            out,
        ) && out@.len() == items@.len() && forall|i: int|
            0 <= i < items@.len() ==> entry_decodes_to(#[trigger] items@[i], out@[i])),
{
    let mut out: Vec<Option<String>> = Vec::new();
    let mut i: usize = 0;
    while i < items.len()
        invariant
            0 <= i <= items@.len(),
            out@.len() == i,
            forall|k: int| 0 <= k < i ==> !entry_invalid(#[trigger] items@[k]),
            forall|k: int| 0 <= k < i ==> entry_decodes_to(#[trigger] items@[k], out@[k]),
        decreases items@.len() - i,
    {
        match &items[i] {
            Some(units) => match wchar_to_string(units.as_slice()) {
                Ok(s) => out.push(Some(s)),
                Err(e) => {
                    assert(entry_invalid(items@[i as int]));
                    return Err(e);
                },
            },
            None => out.push(None),
        }
        i += 1;
    }
    Ok(out)
}

/// The UTF-16 message that is written into an error buffer of
/// `error_buffer_size` units: as much of the message as fits while leaving
/// room for a terminating zero, then the zero. A buffer without room gets
/// nothing (`None`).
pub open spec fn error_buffer_contents(message: Seq<char>, error_buffer_size: int) -> Option<Seq<u16>> {
    if error_buffer_size <= 0 {
        None
    } else {
        let units = utf16_encode(message);
        let n = if units.len() < error_buffer_size - 1 {
            units.len() as int
        } else {
            error_buffer_size - 1
        };
        Some(units.subrange(0, n).push(0u16))
    }
}

/// What is written into an error buffer with room always fits it and ends
/// with the terminating zero; when the whole message fits, the units before
/// the zero decode back to the message.
pub proof fn lemma_error_buffer_contents(message: Seq<char>, error_buffer_size: int)
    requires
        error_buffer_size > 0,
    ensures
        error_buffer_contents(message, error_buffer_size) matches Some(units) && {
            &&& units.len() <= error_buffer_size
            &&& units.last() == 0u16
            &&& utf16_encode(message).len() < error_buffer_size ==> utf16_decode(units.drop_last())
                == Some(message)
        },
{
    let units = error_buffer_contents(message, error_buffer_size)->0;
    let encoded = utf16_encode(message);
    if encoded.len() < error_buffer_size {
        assert(units.drop_last() =~= encoded);
        lemma_utf16_decode_encode(message);
    }
}

/// The code units to copy into a caller's error buffer of
/// `error_buffer_size` units for `message`: the message in UTF-16, cut to
/// leave room for a terminating zero, then the zero; nothing when the buffer
/// has no room.
pub fn set_error_msg(message: &str, error_buffer_size: i32) -> (r: Option<Vec<u16>>)
    ensures
        match error_buffer_contents(message@, error_buffer_size as int) {
            Some(units) => r matches Some(v) && v@ == units,
            None => r is None,
        },
{
    if error_buffer_size <= 0 {
        return None;
    }
    let units = string_to_utf16(message);
    let max_len = (error_buffer_size - 1) as usize;
    let copy_len = if units.len() < max_len {
        units.len()
    } else {
        max_len
    };
    let mut out: Vec<u16> = Vec::new();
    let mut k: usize = 0;
    while k < copy_len
        invariant
            copy_len <= units@.len(),
            0 <= k <= copy_len,
            out@ == units@.subrange(0, k as int),
        decreases copy_len - k,
    {
        out.push(units[k]);
        k += 1;
        assert(out@ =~= units@.subrange(0, k as int));
    }
    out.push(0);
    Some(out)
}

} // verus!
