//! Bytes as text.

use base64::engine::general_purpose::STANDARD;
use base64::Engine;
use vstd::prelude::*;

verus! {

/// Bytes in the standard Base64 alphabet, with padding.
pub uninterp spec fn base64_text(bytes: Seq<u8>) -> Seq<char>;

/// The bytes that text in the standard Base64 alphabet, with padding, stands for.
pub uninterp spec fn base64_bytes(text: Seq<char>) -> Option<Seq<u8>>;

/// Bytes read as UTF-8, with a replacement character where they are not valid.
pub uninterp spec fn lossy_text(bytes: Seq<u8>) -> Seq<char>;

/// `base64::Engine::encode` of the engine `STANDARD`: the text depends on the bytes alone, and
/// decoding it gives them back.
#[verifier::external_body]
fn standard_encode(bytes: &Vec<u8>) -> (result: String)
    ensures
        result@ == base64_text(bytes@),
        base64_bytes(result@) == Some(bytes@),
{
    STANDARD.encode(bytes)
}

/// `base64::Engine::decode` of the engine `STANDARD`: the bytes, or that there are none, depend on
/// the text alone.
#[verifier::external_body]
fn standard_decode(text: &str) -> (result: Option<Vec<u8>>)
    ensures
        match result {
            Some(bytes) => base64_bytes(text@) == Some(bytes@),
            None => base64_bytes(text@) is None,
        },
{
    STANDARD.decode(text).ok()
}

/// `String::from_utf8_lossy`: the text depends on the bytes alone.
#[verifier::external_body]
fn from_utf8_lossy(bytes: &Vec<u8>) -> (result: String)
    ensures
        result@ == lossy_text(bytes@),
{
    String::from_utf8_lossy(bytes).into_owned()
}

/// Writes bytes in Base64.
pub fn encode(bytes: &Vec<u8>) -> (result: String)
    ensures
        result@ == base64_text(bytes@),
        base64_bytes(result@) == Some(bytes@),
{
    standard_encode(bytes)
}

/// Reads bytes in Base64.
pub fn decode(text: &str) -> (result: Option<Vec<u8>>)
    ensures
        match result {
            Some(bytes) => base64_bytes(text@) == Some(bytes@),
            None => base64_bytes(text@) is None,
        },
{
    standard_decode(text)
}

/// Reads bytes as text, whatever they hold.
pub fn lossy(bytes: &Vec<u8>) -> (result: String)
    ensures
        result@ == lossy_text(bytes@),
{
    from_utf8_lossy(bytes)
}

/// Appends the first bytes of a chunk.
pub fn append_bytes(bytes: &mut Vec<u8>, chunk: &Vec<u8>, count: usize)
    requires
        count <= chunk.len(),
    ensures
        final(bytes)@ == old(bytes)@ + chunk@.take(count as int),
{
    let mut index: usize = 0;
    proof {
        assert(bytes@ =~= old(bytes)@ + chunk@.take(0));
    }
    while index < count
        invariant
            index <= count <= chunk.len(),
            bytes@ == old(bytes)@ + chunk@.take(index as int),
        decreases count - index,
    {
        bytes.push(chunk[index]);
        index += 1;
        proof {
            assert(bytes@ =~= old(bytes)@ + chunk@.take(index as int));
        }
    }
}

} // verus!
