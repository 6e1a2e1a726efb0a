use vstd::prelude::*;

verus! {

/// One past the largest token that the two-byte code accepts.
pub const TOKEN_LIMIT: u16 = 16510;

/// Why a token could not be encoded or decoded.
#[derive(Debug, Clone, Copy, PartialEq, Eq, Structural)]
pub enum CodecError {
    /// The token is 16510 or more.
    TokenOutOfRange,
    /// The source ended before the first byte of a code.
    EndOfStream,
    /// The source ended between the two bytes of a code.
    Truncated,
}

/// The bytes that stand for `t` on the wire.
pub open spec fn code_of(t: u16) -> Seq<u8> {
    if t < 128 {
        seq![t as u8]
    } else {
        seq![(0x80u16 | (t & 0x7f)) as u8, (0x80u16 | (t >> 7)) as u8]
    }
}

/// The token that a first byte `b0` and a second byte `b1` stand for.
pub open spec fn token_of_pair(b0: u8, b1: u8) -> u16 {
    ((b0 & 0x7f) as u16) | (((b1 & 0x7f) as u16) << 7)
}

/// What decoding at `pos` of `s` gives: the token and the position after it.
pub open spec fn decode_at(s: Seq<u8>, pos: int) -> Result<(u16, int), CodecError> {
    if pos < 0 || pos >= s.len() {
        Err(CodecError::EndOfStream)
    } else if s[pos] < 128 {
        Ok((s[pos] as u16, pos + 1))
    } else if pos + 1 >= s.len() {
        Err(CodecError::Truncated)
    } else {
        Ok((token_of_pair(s[pos], s[pos + 1]), pos + 2))
    }
}

/// Encodes `token` into a two-byte buffer; only the first `coded_size(r[0])`
/// bytes belong to the code.
pub fn encode_token(token: u16) -> (r: Result<[u8; 2], CodecError>)
    ensures
        token < TOKEN_LIMIT <==> r is Ok,
        r is Err ==> r == Err::<[u8; 2], CodecError>(CodecError::TokenOutOfRange),
        r matches Ok(buf) ==> buf@.subrange(0, code_of(token).len() as int) == code_of(token),
        r matches Ok(buf) ==> code_of(token).len() == (if buf[0] >= 128 { 2int } else { 1int }),
        r matches Ok(buf) ==> (token < 128 ==> buf[1] == 0),
{
    if token < 128 {
        let r: [u8; 2] = [token as u8, 0];
        assert(r@.subrange(0, 1) =~= code_of(token));
        return Ok(r);
    }
    if token < TOKEN_LIMIT {
        let ls: u8 = (0x80u16 | (token & 0x7f)) as u8;
        let ms: u8 = (0x80u16 | (token >> 7)) as u8;
        assert(ls >= 128) by (bit_vector)
            requires ls == (0x80u16 | (token & 0x7f)) as u8;
        let r: [u8; 2] = [ls, ms];
        assert(r@.subrange(0, 2) =~= code_of(token));
        return Ok(r);
    }
    Err(CodecError::TokenOutOfRange)
}

/// How many bytes a code whose first byte is `b` takes.
pub fn coded_size(b: u8) -> (r: u8)
    ensures
        r == (if b >= 128 { 2u8 } else { 1u8 }),
{
    if (b >> 7) == 1 {
        assert(b >= 128) by (bit_vector)
            requires b >> 7 == 1u8;
        2
    } else {
        assert(b < 128) by (bit_vector)
            requires b >> 7 != 1u8;
        1
    }
}

/// Appends the code of `token` to `destination`.
pub fn encoded_stream(destination: &mut Vec<u8>, token: u16) -> (r: Result<(), CodecError>)
    ensures
        token < TOKEN_LIMIT <==> r is Ok,
        r is Ok ==> final(destination)@ == old(destination)@ + code_of(token),
        r is Err ==> r == Err::<(), CodecError>(CodecError::TokenOutOfRange)
            && final(destination)@ == old(destination)@,
{
    let buf = match encode_token(token) {
        Err(e) => return Err(e),
        Ok(x) => x,
    };
    if coded_size(buf[0]) == 1 {
        destination.push(buf[0]);
    } else {
        destination.push(buf[0]);
        destination.push(buf[1]);
    }
    assert(destination@ =~= old(destination)@ + code_of(token));
    Ok(())
}

/// Decodes the code that starts at `*pos` in `source` and moves `*pos` past it.
pub fn decode_token(source: &[u8], pos: &mut usize) -> (r: Result<u16, CodecError>)
    ensures
        match decode_at(source@, *old(pos) as int) {
            Ok((t, next)) => r == Ok::<u16, CodecError>(t) && *final(pos) as int == next,
            Err(e) => r == Err::<u16, CodecError>(e) && *final(pos) == *old(pos),
        },
{
    if *pos >= source.len() {
        return Err(CodecError::EndOfStream);
    }
    let b0 = source[*pos];
    if b0 < 128 {
        *pos = *pos + 1;
        return Ok(b0 as u16);
    }
    if *pos + 1 >= source.len() {
        return Err(CodecError::Truncated);
    }
    let b1 = source[*pos + 1];
    *pos = *pos + 2;
    Ok(((b0 & 0x7f) as u16) | (((b1 & 0x7f) as u16) << 7))
}

/// A code takes one byte for a token below 128 and two bytes otherwise.
pub proof fn lemma_code_size(t: u16)
    ensures
        code_of(t).len() == (if t < 128 { 1int } else { 2int }),
        code_of(t)[0] >= 128 <==> t >= 128,
{
    if t >= 128 {
        let b0 = (0x80u16 | (t & 0x7f)) as u8;
        assert(b0 >= 128) by (bit_vector)
            requires b0 == (0x80u16 | (t & 0x7f)) as u8;
    }
}

/// Decoding the code of a token below 16384, wherever it stands in a stream,
/// gives the token back and ends just after the code. (From 16384 on, the
/// second byte has no room for bit 14 of the token.)
pub proof fn lemma_round_trip(t: u16, before: Seq<u8>, after: Seq<u8>)
    requires
        t < 16384,
    ensures
        decode_at(before + code_of(t) + after, before.len() as int)
            == Ok::<(u16, int), CodecError>((t, (before.len() + code_of(t).len()) as int)),
{
    let s = before + code_of(t) + after;
    let p = before.len() as int;
    lemma_code_size(t);
    assert(s[p] == code_of(t)[0]);
    if t >= 128 {
        assert(s[p + 1] == code_of(t)[1]);
        let b0 = (0x80u16 | (t & 0x7f)) as u8;
        let b1 = (0x80u16 | (t >> 7)) as u8;
        assert(token_of_pair(b0, b1) == t) by (bit_vector)
            requires
                t < 16384,
                b0 == (0x80u16 | (t & 0x7f)) as u8,
                b1 == (0x80u16 | (t >> 7)) as u8,
                token_of_pair(b0, b1) == ((b0 & 0x7f) as u16) | (((b1 & 0x7f) as u16) << 7);
    }
}

} // verus!
