//! PKCS#7 padding of a buffer to whole blocks.

use vstd::prelude::*;

verus! {

/// How many padding bytes a buffer of `n` bytes gets for blocks of
/// `block_size` bytes. The length counts as a byte: only `n` modulo 256
/// enters, which is the length modulo the block size wherever the block
/// size divides 256.
pub open spec fn pkcs7_pad_len(n: nat, block_size: u8) -> int {
    block_size - (n % 256) % (block_size as nat)
}

/// The buffer with its padding: between one and `block_size` bytes, each
/// of them holding their number.
pub open spec fn pkcs7_spec(input: Seq<u8>, block_size: u8) -> Seq<u8> {
    input + Seq::new(
        pkcs7_pad_len(input.len(), block_size) as nat,
        |i: int| pkcs7_pad_len(input.len(), block_size) as u8,
    )
}

/// Pads `input` for blocks of `block_size` bytes. A buffer that already
/// fills its blocks gets one whole block of padding.
pub fn pkcs7(input: &[u8], block_size: u8) -> (r: Vec<u8>)
    requires
        block_size > 0,
    ensures
        r@ == pkcs7_spec(input@, block_size),
{
    let mut res: Vec<u8> = Vec::new();
    for i in 0..input.len()
        invariant
            res@ == input@.take(i as int),
    {
        res.push(input[i]);
        assert(input@.take(i + 1) =~= input@.take(i as int).push(input@[i as int]));
    }
    assert(input@.take(input@.len() as int) =~= input@);
    let short: u8 = (input.len() % 256) as u8;
    let pad: u8 = block_size - short % block_size;
    for i in 0..pad
        invariant
            pad == pkcs7_pad_len(input@.len(), block_size),
            res@ == input@ + Seq::new(i as nat, |k: int| pad),
    {
        res.push(pad);
        assert(Seq::new((i + 1) as nat, |k: int| pad) =~= Seq::new(i as nat, |k: int| pad).push(
            pad,
        ));
        assert(res@ =~= input@ + Seq::new((i + 1) as nat, |k: int| pad));
    }
    res
}

} // verus!
