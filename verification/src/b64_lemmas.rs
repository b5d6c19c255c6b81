//! Facts about base64 decoding that hold of every input.
use vstd::prelude::*;
use crate::b64::{
    all_symbols, chunk, decoded, decoded_byte, decoded_len, group_count, is_symbol, packed,
    sextet, sextet_at, strip_padding, valid_prefix, PAD,
};
use crate::error::Base64Error;

verus! {

/// What is left after stripping is a prefix of the input, does not end in
/// `=`, and is followed by nothing but `=`.
pub proof fn lemma_strip_padding(input: Seq<u8>)
    ensures
        strip_padding(input).len() <= input.len(),
        strip_padding(input) == input.take(strip_padding(input).len() as int),
        strip_padding(input).len() > 0 ==> strip_padding(input).last() != PAD,
        forall|i: int| strip_padding(input).len() <= i < input.len() ==> input[i] == PAD,
    decreases input.len(),
{
    if input.len() > 0 && input.last() == PAD {
        let front = input.drop_last();
        lemma_strip_padding(front);
        let n = strip_padding(front).len() as int;
        assert(front.take(n) =~= input.take(n));
        assert forall|i: int| n <= i < input.len() implies input[i] == PAD by {
            if i < front.len() {
                assert(front[i] == input[i]);
            }
        }
    } else {
        assert(input.take(input.len() as int) =~= input);
    }
}

/// Where the first `m` symbols are acceptable, [`valid_prefix`] is `m` if
/// the symbol at `m` is foreign or `m` is the length, and more than `m`
/// otherwise.
pub proof fn lemma_valid_prefix(symbols: Seq<u8>, m: int)
    requires
        0 <= m <= symbols.len(),
        all_symbols(symbols, m),
    ensures
        valid_prefix(symbols) >= m,
        m == symbols.len() || !is_symbol(symbols[m]) ==> valid_prefix(symbols) == m,
        m < symbols.len() && is_symbol(symbols[m]) ==> valid_prefix(symbols) > m,
    decreases m,
{
    if m > 0 {
        let rest = symbols.skip(1);
        assert(is_symbol(symbols[0]));
        assert forall|k: int| 0 <= k < m - 1 implies is_symbol(#[trigger] rest[k]) by {
            assert(rest[k] == symbols[k + 1]);
        }
        lemma_valid_prefix(rest, m - 1);
        if m < symbols.len() {
            assert(rest[m - 1] == symbols[m]);
        }
    }
}

/// A foreign byte at index `k` bounds [`valid_prefix`] from above.
pub proof fn lemma_valid_prefix_upper(symbols: Seq<u8>, k: int)
    requires
        0 <= k < symbols.len(),
        !is_symbol(symbols[k]),
    ensures
        valid_prefix(symbols) <= k,
    decreases k,
{
    if k > 0 && is_symbol(symbols[0]) {
        let rest = symbols.skip(1);
        assert(rest[k - 1] == symbols[k]);
        lemma_valid_prefix_upper(rest, k - 1);
    }
}

/// Padding does not count: an input decodes as it does with any number of
/// `=` appended to it.
pub proof fn lemma_padding_ignored(input: Seq<u8>, pads: nat)
    ensures
        strip_padding(input + Seq::new(pads, |i: int| PAD)) == strip_padding(input),
        decoded(input + Seq::new(pads, |i: int| PAD)) == decoded(input),
    decreases pads,
{
    let padded = input + Seq::new(pads, |i: int| PAD);
    if pads == 0 {
        assert(padded =~= input);
    } else {
        let fewer = input + Seq::new((pads - 1) as nat, |i: int| PAD);
        assert(padded.drop_last() =~= fewer);
        assert(padded.last() == PAD);
        lemma_padding_ignored(input, (pads - 1) as nat);
    }
}

/// An input is refused for its length exactly if one symbol is left over
/// after the last full group of four, whatever else is wrong with it.
pub proof fn lemma_invalid_length(input: Seq<u8>)
    ensures
        strip_padding(input).len() % 4 == 1 <==> decoded(input) == Err::<Seq<u8>, Base64Error>(
            Base64Error::InvalidLength,
        ),
{
}

/// An input of acceptable length that holds a foreign byte at index `i` is
/// refused for that byte or for an earlier one: the group reported is the
/// first that holds a foreign byte.
pub proof fn lemma_foreign_byte_refused(input: Seq<u8>, i: int)
    requires
        0 <= i < input.len() <= usize::MAX,
        !is_symbol(input[i]),
        strip_padding(input).len() % 4 != 1,
    ensures
        decoded(input) matches Err(Base64Error::InvalidCharacter { group }) && group <= i / 4
            && group == valid_prefix(strip_padding(input)) / 4,
        exists|k: int|
            4 * (valid_prefix(strip_padding(input)) / 4) <= k < 4 * (valid_prefix(
                strip_padding(input),
            ) / 4) + 4 && k < input.len() && !is_symbol(#[trigger] input[k]),
{
    lemma_strip_padding(input);
    let symbols = strip_padding(input);
    assert(is_symbol(PAD));
    assert(i < symbols.len());
    assert(symbols[i] == input[i]);
    lemma_valid_prefix_upper(symbols, i);
    let m = valid_prefix(symbols) as int;
    lemma_first_foreign(symbols);
    assert(symbols[m] == input[m]);
}

/// [`lemma_foreign_byte_refused`] for every index at once.
pub proof fn lemma_foreign_bytes_refused(input: Seq<u8>)
    requires
        input.len() <= usize::MAX,
    ensures
        forall|i: int|
            0 <= i < input.len() && !is_symbol(#[trigger] input[i]) && strip_padding(
                input,
            ).len() % 4 != 1 ==> (decoded(input) matches Err(
                Base64Error::InvalidCharacter { group },
            ) && group <= i / 4),
{
    assert forall|i: int|
        0 <= i < input.len() && !is_symbol(#[trigger] input[i]) && strip_padding(input).len() % 4
            != 1 implies (decoded(input) matches Err(Base64Error::InvalidCharacter { group })
        && group <= i / 4) by {
        lemma_foreign_byte_refused(input, i);
    }
}

/// Where [`valid_prefix`] is short of the length, a foreign byte stands
/// right behind it and none before it.
pub proof fn lemma_first_foreign(symbols: Seq<u8>)
    ensures
        valid_prefix(symbols) <= symbols.len(),
        all_symbols(symbols, valid_prefix(symbols) as int),
        valid_prefix(symbols) < symbols.len() ==> !is_symbol(
            symbols[valid_prefix(symbols) as int],
        ),
    decreases symbols.len(),
{
    if symbols.len() > 0 && is_symbol(symbols[0]) {
        let rest = symbols.skip(1);
        lemma_first_foreign(rest);
        assert forall|k: int| 0 <= k < valid_prefix(symbols) implies is_symbol(
            #[trigger] symbols[k],
        ) by {
            if k > 0 {
                assert(symbols[k] == rest[k - 1]);
            }
        }
        if valid_prefix(symbols) < symbols.len() {
            assert(symbols[valid_prefix(symbols) as int] == rest[valid_prefix(rest) as int]);
        }
    }
}

/// The chunks that a streaming decoder hands out are the decoded output
/// cut into pieces of three bytes, the last piece being shorter where the
/// output does not divide by three. Nothing is left out and nothing comes
/// twice.
pub proof fn lemma_chunks_tile_output(input: Seq<u8>, g: int)
    requires
        decoded(input) is Ok,
        0 <= g < group_count(strip_padding(input).len()),
    ensures
        ({
            let bytes = decoded(input)->Ok_0;
            let end = if 3 * g + 3 <= bytes.len() {
                3 * g + 3
            } else {
                bytes.len() as int
            };
            &&& 3 * g < end
            &&& chunk(strip_padding(input), g) == bytes.subrange(3 * g, end)
        }),
{
    let symbols = strip_padding(input);
    let bytes = decoded(input)->Ok_0;
    let end = if 3 * g + 3 <= bytes.len() {
        3 * g + 3
    } else {
        bytes.len() as int
    };
    assert(chunk(symbols, g) =~= bytes.subrange(3 * g, end));
}

/// The symbol of the alphabet that stands for the six-bit value `v`.
pub open spec fn symbol(v: int) -> u8 {
    if v < 26 {
        (65 + v) as u8
    } else if v < 52 {
        (97 + v - 26) as u8
    } else if v < 62 {
        (48 + v - 52) as u8
    } else if v == 62 {
        43
    } else {
        47
    }
}

/// The byte at index `i`, or 0 past the end.
pub open spec fn byte_at(bytes: Seq<u8>, i: int) -> int {
    if 0 <= i < bytes.len() {
        bytes[i] as int
    } else {
        0
    }
}

/// Six-bit value number `k` of the bit string that `bytes` form.
pub open spec fn encoded_sextet(bytes: Seq<u8>, k: int) -> int {
    let t = 3 * (k / 4);
    if k % 4 == 0 {
        byte_at(bytes, t) / 4
    } else if k % 4 == 1 {
        byte_at(bytes, t) % 4 * 16 + byte_at(bytes, t + 1) / 16
    } else if k % 4 == 2 {
        byte_at(bytes, t + 1) % 16 * 4 + byte_at(bytes, t + 2) / 64
    } else {
        byte_at(bytes, t + 2) % 64
    }
}

/// Number of symbols that `n` bytes are written with.
pub open spec fn encoded_len(n: nat) -> nat {
    if n % 3 == 0 {
        n / 3 * 4
    } else {
        n / 3 * 4 + n % 3 + 1
    }
}

/// The base64 text for `bytes`, without padding.
pub open spec fn encoded(bytes: Seq<u8>) -> Seq<u8> {
    Seq::new(encoded_len(bytes.len()), |k: int| symbol(encoded_sextet(bytes, k)))
}

/// The base64 text for `bytes`, filled up with `=` to a multiple of four
/// symbols.
pub open spec fn encoded_padded(bytes: Seq<u8>) -> Seq<u8> {
    encoded(bytes) + Seq::new(((3 - bytes.len() % 3) % 3) as nat, |i: int| PAD)
}

/// Every six-bit value has a symbol, which is not `=` and stands for that
/// value.
pub proof fn lemma_symbol(v: int)
    requires
        0 <= v < 64,
    ensures
        sextet(symbol(v)) == v,
        symbol(v) != PAD,
{
}

/// The decoder reads from the base64 text of `bytes` the six-bit values
/// that the encoder wrote, and zeros past its end, where the encoder would
/// have written zeros too.
pub proof fn lemma_sextet_of_encoded(bytes: Seq<u8>, k: int)
    requires
        0 <= k,
    ensures
        sextet_at(encoded(bytes), k) == encoded_sextet(bytes, k),
{
    if k < encoded(bytes).len() {
        lemma_symbol(encoded_sextet(bytes, k));
    }
}

/// The base64 text of a byte string is made of symbols of the alphabet
/// only, and its length is acceptable.
pub proof fn lemma_encoded_is_sound(bytes: Seq<u8>)
    ensures
        strip_padding(encoded(bytes)) == encoded(bytes),
        valid_prefix(encoded(bytes)) == encoded(bytes).len(),
        encoded(bytes).len() % 4 != 1,
        decoded_len(encoded(bytes).len()) == bytes.len(),
{
    let text = encoded(bytes);
    assert forall|k: int| 0 <= k < text.len() implies is_symbol(#[trigger] text[k]) && text[k]
        != PAD by {
        lemma_symbol(encoded_sextet(bytes, k));
    }
    lemma_valid_prefix(text, text.len() as int);
}

/// Byte `j` of what the base64 text of `bytes` decodes to is byte `j` of
/// `bytes`.
pub proof fn lemma_decoded_byte_of_encoded(bytes: Seq<u8>, j: int)
    requires
        0 <= j < bytes.len(),
    ensures
        decoded_byte(encoded(bytes), j) == bytes[j],
{
    let g = 4 * (j / 3);
    let t = 3 * (j / 3);
    lemma_sextet_of_encoded(bytes, g);
    lemma_sextet_of_encoded(bytes, g + 1);
    lemma_sextet_of_encoded(bytes, g + 2);
    lemma_sextet_of_encoded(bytes, g + 3);
    assert(g / 4 == j / 3 && g % 4 == 0);
    assert((g + 1) / 4 == j / 3 && (g + 1) % 4 == 1);
    assert((g + 2) / 4 == j / 3 && (g + 2) % 4 == 2);
    assert((g + 3) / 4 == j / 3 && (g + 3) % 4 == 3);
    lemma_pack_unpack(byte_at(bytes, t), byte_at(bytes, t + 1), byte_at(bytes, t + 2));
}

/// Decoding undoes encoding: every byte string comes back unchanged from
/// its base64 text, padded or not.
pub proof fn lemma_decode_encoded(bytes: Seq<u8>)
    ensures
        decoded(encoded(bytes)) == Ok::<Seq<u8>, Base64Error>(bytes),
        decoded(encoded_padded(bytes)) == Ok::<Seq<u8>, Base64Error>(bytes),
{
    let text = encoded(bytes);
    lemma_encoded_is_sound(bytes);
    let out = decoded(text)->Ok_0;
    assert forall|j: int| 0 <= j < bytes.len() implies out[j] == bytes[j] by {
        lemma_decoded_byte_of_encoded(bytes, j);
    }
    assert(out =~= bytes);
    lemma_padding_ignored(text, ((3 - bytes.len() % 3) % 3) as nat);
}

/// The padded base64 text of a byte string is a whole number of groups of
/// four.
pub proof fn lemma_encoded_padded_len(bytes: Seq<u8>)
    ensures
        encoded_padded(bytes).len() % 4 == 0,
{
}

/// Cutting three bytes into four six-bit values and packing those gives
/// the three bytes back.
pub proof fn lemma_pack_unpack(b0: int, b1: int, b2: int)
    requires
        0 <= b0 < 256,
        0 <= b1 < 256,
        0 <= b2 < 256,
    ensures
        packed(b0 / 4, b0 % 4 * 16 + b1 / 16, b1 % 16 * 4 + b2 / 64, b2 % 64, 0) == b0,
        packed(b0 / 4, b0 % 4 * 16 + b1 / 16, b1 % 16 * 4 + b2 / 64, b2 % 64, 1) == b1,
        packed(b0 / 4, b0 % 4 * 16 + b1 / 16, b1 % 16 * 4 + b2 / 64, b2 % 64, 2) == b2,
{
}

} // verus!
