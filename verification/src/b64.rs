//! Base64 decoding (standard alphabet, optional `=` padding).
//!
//! The input is a sequence of symbols, each worth six bits. Four symbols
//! make a group that packs into three bytes. Trailing `=` are set aside
//! before anything else happens; what is left may end in a short group of
//! two or three symbols, which packs into one or two bytes.
use vstd::prelude::*;
use crate::b64_lemmas::{
    lemma_foreign_bytes_refused, lemma_valid_prefix, lemma_valid_prefix_upper,
};
pub use crate::error::Base64Error;

verus! {

/// Marker returned by [`decode_byte`] for a byte that is no base64 symbol.
pub const INVALID_SYMBOL: u8 = 64;

/// The `=` character, which fills the last group of a padded input.
pub const PAD: u8 = 61;

/// The six-bit value that a base64 symbol stands for.
///
/// `A`-`Z` stand for 0-25, `a`-`z` for 26-51, `0`-`9` for 52-61, `+` for 62
/// and `/` for 63. The padding character `=` counts as a placeholder of
/// value 0. Every other byte yields 64, which is out of the six-bit range.
pub open spec fn sextet(c: u8) -> int {
    if 65 <= c <= 90 {
        c - 65
    } else if 97 <= c <= 122 {
        c - 97 + 26
    } else if 48 <= c <= 57 {
        c - 48 + 52
    } else if c == 43 {
        62
    } else if c == 47 {
        63
    } else if c == 61 {
        0
    } else {
        64
    }
}

/// Whether `c` is accepted inside a group: a symbol of the alphabet or `=`.
pub open spec fn is_symbol(c: u8) -> bool {
    sextet(c) < 64
}

/// The input without its trailing run of `=`.
pub open spec fn strip_padding(input: Seq<u8>) -> Seq<u8>
    decreases input.len(),
{
    if input.len() > 0 && input.last() == PAD {
        strip_padding(input.drop_last())
    } else {
        input
    }
}

/// The six-bit value at index `i`, or the placeholder 0 past the end.
pub open spec fn sextet_at(symbols: Seq<u8>, i: int) -> int {
    if 0 <= i < symbols.len() {
        sextet(symbols[i])
    } else {
        0
    }
}

/// Byte `r` (0, 1 or 2) of the three bytes that the six-bit values `v0`,
/// `v1`, `v2`, `v3` pack into: the 24 bits `v0 v1 v2 v3` cut into three
/// pieces of eight.
pub open spec fn packed(v0: int, v1: int, v2: int, v3: int, r: int) -> int {
    if r == 0 {
        v0 * 4 + v1 / 16
    } else if r == 1 {
        v1 % 16 * 16 + v2 / 4
    } else {
        v2 % 4 * 64 + v3
    }
}

/// Byte `j` of the output for `symbols`.
pub open spec fn decoded_byte(symbols: Seq<u8>, j: int) -> u8 {
    let g = 4 * (j / 3);
    packed(
        sextet_at(symbols, g),
        sextet_at(symbols, g + 1),
        sextet_at(symbols, g + 2),
        sextet_at(symbols, g + 3),
        j % 3,
    ) as u8
}

/// Number of bytes that `n` symbols pack into, for `n` not one more than a
/// multiple of four.
pub open spec fn decoded_len(n: nat) -> nat {
    if n % 4 == 0 {
        n / 4 * 3
    } else {
        (n / 4 * 3 + n % 4 - 1) as nat
    }
}

/// Number of symbols at the start of `symbols` that are all acceptable:
/// the index of the first foreign byte, or the length where there is none.
pub open spec fn valid_prefix(symbols: Seq<u8>) -> nat
    decreases symbols.len(),
{
    if symbols.len() == 0 || !is_symbol(symbols[0]) {
        0
    } else {
        1 + valid_prefix(symbols.skip(1))
    }
}

/// What decoding `input` yields.
///
/// The length is judged first: if a single symbol is left over after the
/// last full group, the input is refused as a whole. Otherwise the first
/// group that holds a foreign byte is reported. Otherwise every group packs
/// into bytes.
pub open spec fn decoded(input: Seq<u8>) -> Result<Seq<u8>, Base64Error> {
    let symbols = strip_padding(input);
    if symbols.len() % 4 == 1 {
        Err(Base64Error::InvalidLength)
    } else if valid_prefix(symbols) < symbols.len() {
        Err(Base64Error::InvalidCharacter { group: (valid_prefix(symbols) / 4) as usize })
    } else {
        Ok(Seq::new(decoded_len(symbols.len()), |j: int| decoded_byte(symbols, j)))
    }
}

/// Number of groups, the short last one included, that `n` symbols form.
pub open spec fn group_count(n: nat) -> nat {
    (n + 3) / 4
}

/// The bytes that group `g` of `symbols` packs into: three for a full
/// group, one or two for a short last group.
pub open spec fn chunk(symbols: Seq<u8>, g: int) -> Seq<u8> {
    let size = if 4 * g + 4 <= symbols.len() {
        3
    } else {
        symbols.len() - 4 * g - 1
    };
    Seq::new(size as nat, |r: int| decoded_byte(symbols, 3 * g + r))
}

/// Every symbol before index `m` is acceptable.
pub open spec fn all_symbols(symbols: Seq<u8>, m: int) -> bool {
    forall|k: int| 0 <= k < m ==> is_symbol(#[trigger] symbols[k])
}

/// Number of chunks that a streaming decoder hands out for `input` before
/// it ends: every group if the input is sound, the groups before the first
/// one that holds a foreign byte if there is such a group, and none if the
/// length is refused.
pub open spec fn emitted(input: Seq<u8>) -> nat {
    let symbols = strip_padding(input);
    if symbols.len() % 4 == 1 {
        0
    } else if valid_prefix(symbols) < symbols.len() {
        valid_prefix(symbols) / 4
    } else {
        group_count(symbols.len())
    }
}

/// Maps one input byte to its six-bit value, or to [`INVALID_SYMBOL`].
pub fn decode_byte(byte: u8) -> (value: u8)
    ensures
        value == sextet(byte),
        value <= 64,
{
    if 65 <= byte && byte <= 90 {
        byte - 65
    } else if 97 <= byte && byte <= 122 {
        byte - 97 + 26
    } else if 48 <= byte && byte <= 57 {
        byte - 48 + 52
    } else if byte == 43 {
        62
    } else if byte == 47 {
        63
    } else if byte == PAD {
        0
    } else {
        INVALID_SYMBOL
    }
}

/// The bit operations of the decoder compute [`packed`].
proof fn lemma_packing(b1: u8, b2: u8, b3: u8, b4: u8)
    requires
        b1 < 64,
        b2 < 64,
        b3 < 64,
        b4 < 64,
    ensures
        ((b1 << 2) | (b2 >> 4)) == packed(b1 as int, b2 as int, b3 as int, b4 as int, 0),
        ((b2 << 4) | (b3 >> 2)) == packed(b1 as int, b2 as int, b3 as int, b4 as int, 1),
        ((b3 << 6) | b4) == packed(b1 as int, b2 as int, b3 as int, b4 as int, 2),
{
    assert(((b1 << 2) | (b2 >> 4)) == b1 * 4 + b2 / 16) by (bit_vector)
        requires
            b1 < 64,
            b2 < 64,
    ;
    assert(((b2 << 4) | (b3 >> 2)) == b2 % 16 * 16 + b3 / 4) by (bit_vector)
        requires
            b2 < 64,
            b3 < 64,
    ;
    assert(((b3 << 6) | b4) == b3 % 4 * 64 + b4) by (bit_vector)
        requires
            b3 < 64,
            b4 < 64,
    ;
}

/// Packs one group of four symbols into three bytes. Yields nothing if one
/// of the four is a foreign byte.
pub fn decode_quartet(input: [u8; 4]) -> (r: Option<[u8; 3]>)
    ensures
        r.is_some() == (is_symbol(input[0]) && is_symbol(input[1]) && is_symbol(input[2])
            && is_symbol(input[3])),
        r matches Some(out) ==> forall|k: int|
            0 <= k < 3 ==> #[trigger] out[k] == packed(
                sextet(input[0]),
                sextet(input[1]),
                sextet(input[2]),
                sextet(input[3]),
                k,
            ),
{
    let b1 = decode_byte(input[0]);
    let b2 = decode_byte(input[1]);
    let b3 = decode_byte(input[2]);
    let b4 = decode_byte(input[3]);
    if b1 >= INVALID_SYMBOL || b2 >= INVALID_SYMBOL || b3 >= INVALID_SYMBOL || b4
        >= INVALID_SYMBOL {
        return None;
    }
    proof {
        lemma_packing(b1, b2, b3, b4);
    }
    Some([(b1 << 2) | (b2 >> 4), (b2 << 4) | (b3 >> 2), (b3 << 6) | b4])
}

/// Packs two groups of four symbols into six bytes. Yields nothing if one
/// of the eight is a foreign byte.
pub fn decode_octet(input: [u8; 8]) -> (r: Option<[u8; 6]>)
    ensures
        r.is_some() == (forall|i: int| 0 <= i < 8 ==> is_symbol(#[trigger] input[i])),
        r matches Some(out) ==> forall|k: int|
            0 <= k < 6 ==> #[trigger] out[k] == decoded_byte(input@, k),
{
    let first = decode_quartet([input[0], input[1], input[2], input[3]]);
    let second = decode_quartet([input[4], input[5], input[6], input[7]]);
    match (first, second) {
        (Some(a), Some(b)) => {
            let out = [a[0], a[1], a[2], b[0], b[1], b[2]];
            assert forall|k: int| 0 <= k < 6 implies #[trigger] out[k] == decoded_byte(
                input@,
                k,
            ) by {
                if k < 3 {
                    assert(out[k] == a[k]);
                } else {
                    assert(out[k] == b[k - 3]);
                }
            }
            Some(out)
        },
        _ => None,
    }
}

/// Length of `input` without its trailing run of `=`.
fn stripped_len(input: &[u8]) -> (n: usize)
    ensures
        n <= input@.len() <= usize::MAX,
        input@.take(n as int) == strip_padding(input@),
{
    let mut n = input.len();
    assert(input@.take(n as int) =~= input@);
    while n > 0 && input[n - 1] == PAD
        invariant
            n <= input@.len(),
            strip_padding(input@.take(n as int)) == strip_padding(input@),
        decreases n,
    {
        assert(input@.take(n as int).drop_last() =~= input@.take(n - 1));
        n -= 1;
    }
    n
}

/// Packs group `g` of `input`, whose first `n` bytes are what is left
/// after stripping and whose earlier groups were found sound: a full group
/// of four symbols, or the short last group of two or three. Returns the
/// bytes and how many of them count, or the failure of the whole input.
fn decode_group(input: &[u8], n: usize, g: usize) -> (r: Result<([u8; 3], usize), Base64Error>)
    requires
        n <= input@.len() <= usize::MAX,
        input@.take(n as int) == strip_padding(input@),
        n % 4 != 1,
        4 * g < n,
        all_symbols(strip_padding(input@), 4 * g),
    ensures
        match r {
            Ok((bytes, size)) => {
                &&& 1 <= size <= 3
                &&& bytes@.take(size as int) == chunk(strip_padding(input@), g as int)
                &&& all_symbols(
                    strip_padding(input@),
                    if 4 * g + 4 <= n {
                        4 * g + 4
                    } else {
                        n as int
                    },
                )
            },
            Err(e) => {
                &&& e == Base64Error::InvalidCharacter { group: g }
                &&& decoded(input@) == Err::<Seq<u8>, Base64Error>(e)
                &&& emitted(input@) == g
            },
        },
{
    let at = 4 * g;
    let left = n - at;
    let ghost symbols = input@.take(n as int);
    let quartet = if left >= 4 {
        [input[at], input[at + 1], input[at + 2], input[at + 3]]
    } else if left == 3 {
        [input[at], input[at + 1], input[at + 2], PAD]
    } else {
        [input[at], input[at + 1], PAD, PAD]
    };
    let size: usize = if left >= 4 {
        3
    } else {
        left - 1
    };
    assert(is_symbol(PAD) && sextet(PAD) == 0);
    assert forall|i: int| 0 <= i < 4 implies sextet(#[trigger] quartet[i]) == sextet_at(
        symbols,
        at + i,
    ) by {
        if at + i < n {
            assert(symbols[at + i] == input@[at + i]);
        }
    }
    match decode_quartet(quartet) {
        Some(bytes) => {
            assert forall|r: int| 0 <= r < size implies #[trigger] bytes@[r] == decoded_byte(
                symbols,
                3 * g + r,
            ) by {
                assert((3 * g + r) / 3 == g && (3 * g + r) % 3 == r);
                assert(bytes[r] == bytes@[r]);
            }
            assert(bytes@.take(size as int) =~= chunk(symbols, g as int));
            assert forall|k: int| 0 <= k < at + 4 && k < n implies is_symbol(
                #[trigger] symbols[k],
            ) by {
                if k >= at {
                    assert(symbols[k] == quartet[k - at]);
                }
            }
            Ok((bytes, size))
        },
        None => {
            proof {
                let i = choose|i: int| 0 <= i < 4 && !is_symbol(#[trigger] quartet[i]);
                assert(symbols[at + i] == quartet[i]);
                lemma_valid_prefix(symbols, at as int);
                lemma_valid_prefix_upper(symbols, at + i);
                assert(valid_prefix(symbols) / 4 == g);
            }
            Err(Base64Error::InvalidCharacter { group: g })
        },
    }
}

/// Number of output bytes that the first `g` groups of `n` symbols make.
spec fn prefix_len(n: nat, g: nat) -> nat {
    if 4 * g <= n {
        3 * g
    } else {
        decoded_len(n)
    }
}

/// Decodes `input` and hands the output to `cb` chunk by chunk, in order:
/// three bytes for each full group of four symbols, then one or two bytes
/// for a short last group. No output buffer is built.
///
/// Decoding stops at the first group that holds a foreign byte; the chunks
/// of the groups before it have been handed out by then. An input whose
/// length is refused yields no chunk at all.
///
/// The contract states the outcome exactly. Of the chunks it states that
/// the callback has run on each, by way of the callback's own
/// postcondition.
pub fn decode_with_callback<F: FnMut(&[u8])>(input: &[u8], cb: F) -> (r: Result<
    (),
    Base64Error,
>)
    requires
        forall|c: &[u8]| 1 <= c@.len() <= 3 ==> call_requires(cb, (c,)),
    ensures
        r == match decoded(input@) {
            Ok(_) => Ok::<(), Base64Error>(()),
            Err(e) => Err::<(), Base64Error>(e),
        },
        strip_padding(input@).len() % 4 == 1 <==> r == Err::<(), Base64Error>(
            Base64Error::InvalidLength,
        ),
        forall|i: int|
            0 <= i < input@.len() && !is_symbol(#[trigger] input@[i]) && strip_padding(
                input@,
            ).len() % 4 != 1 ==> (r matches Err(Base64Error::InvalidCharacter { group })
                && group <= i / 4),
        forall|g: int|
            0 <= g < emitted(input@) ==> exists|c: &[u8]|
                c@ == #[trigger] chunk(strip_padding(input@), g) && call_ensures(cb, (c,), ()),
{
    let n = stripped_len(input);
    proof {
        lemma_foreign_bytes_refused(input@);
    }
    if n % 4 == 1 {
        return Err(Base64Error::InvalidLength);
    }
    let groups = n / 4 + if n % 4 == 0 {
        0
    } else {
        1
    };
    let mut emit = cb;
    let mut g: usize = 0;
    while g < groups
        invariant
            n <= input@.len() <= usize::MAX,
            n % 4 != 1,
            input@.take(n as int) == strip_padding(input@),
            groups == group_count(n as nat),
            g <= groups,
            all_symbols(strip_padding(input@), if 4 * g <= n { 4 * g } else { n as int }),
            emit == cb,
            forall|c: &[u8]| 1 <= c@.len() <= 3 ==> call_requires(cb, (c,)),
            forall|h: int|
                0 <= h < g ==> exists|c: &[u8]|
                    c@ == #[trigger] chunk(strip_padding(input@), h) && call_ensures(
                        cb,
                        (c,),
                        (),
                    ),
            forall|i: int|
                0 <= i < input@.len() && !is_symbol(#[trigger] input@[i]) ==> (decoded(
                    input@,
                ) matches Err(Base64Error::InvalidCharacter { group }) && group <= i / 4),
        decreases groups - g,
    {
        match decode_group(input, n, g) {
            Ok((bytes, size)) => {
                let part = vstd::slice::slice_subrange(bytes.as_slice(), 0, size);
                emit(part);
            },
            Err(e) => {
                return Err(e);
            },
        }
        g += 1;
    }
    proof {
        lemma_valid_prefix(strip_padding(input@), n as int);
    }
    Ok(())
}

/// Decodes `input` into a vector of bytes.
pub fn decode_to_vec(input: &[u8]) -> (r: Result<Vec<u8>, Base64Error>)
    ensures
        match decoded(input@) {
            Ok(bytes) => r matches Ok(out) && out@ == bytes,
            Err(e) => r == Err::<Vec<u8>, Base64Error>(e),
        },
        strip_padding(input@).len() % 4 == 1 <==> r == Err::<Vec<u8>, Base64Error>(
            Base64Error::InvalidLength,
        ),
        forall|i: int|
            0 <= i < input@.len() && !is_symbol(#[trigger] input@[i]) && strip_padding(
                input@,
            ).len() % 4 != 1 ==> (r matches Err(Base64Error::InvalidCharacter { group })
                && group <= i / 4),
{
    let n = stripped_len(input);
    proof {
        lemma_foreign_bytes_refused(input@);
    }
    let ghost symbols = strip_padding(input@);
    if n % 4 == 1 {
        return Err(Base64Error::InvalidLength);
    }
    let groups = n / 4 + if n % 4 == 0 {
        0
    } else {
        1
    };
    let total = n / 4 * 3 + if n % 4 == 0 {
        0
    } else {
        n % 4 - 1
    };
    let mut out: Vec<u8> = Vec::with_capacity(total);
    let mut g: usize = 0;
    while g < groups
        invariant
            n <= input@.len() <= usize::MAX,
            n % 4 != 1,
            symbols == strip_padding(input@),
            input@.take(n as int) == symbols,
            groups == group_count(n as nat),
            g <= groups,
            all_symbols(symbols, if 4 * g <= n { 4 * g } else { n as int }),
            out@.len() == prefix_len(n as nat, g as nat),
            forall|j: int| 0 <= j < out@.len() ==> #[trigger] out@[j] == decoded_byte(symbols, j),
            forall|i: int|
                0 <= i < input@.len() && !is_symbol(#[trigger] input@[i]) ==> (decoded(
                    input@,
                ) matches Err(Base64Error::InvalidCharacter { group }) && group <= i / 4),
        decreases groups - g,
    {
        match decode_group(input, n, g) {
            Ok((bytes, size)) => {
                let ghost part = chunk(symbols, g as int);
                assert(part.len() == bytes@.take(size as int).len() == size);
                assert(forall|r: int| 0 <= r < size ==> bytes@[r] == bytes@.take(size as int)[r]);
                assert(forall|r: int|
                    0 <= r < size ==> part[r] == decoded_byte(symbols, 3 * g + r));
                out.push(bytes[0]);
                if size > 1 {
                    out.push(bytes[1]);
                }
                if size > 2 {
                    out.push(bytes[2]);
                }
            },
            Err(e) => {
                return Err(e);
            },
        }
        g += 1;
    }
    proof {
        lemma_valid_prefix(symbols, n as int);
        assert(out@ =~= decoded(input@)->Ok_0);
    }
    Ok(out)
}

} // verus!
