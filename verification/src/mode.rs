//! Chaining a 16-byte block cipher over a buffer: ECB and CBC.

use vstd::prelude::*;
use crate::basics::{lemma_xor_twice, xor_spec};
use crate::error::Error;

verus! {

/// A keyed permutation of 16-byte blocks.
///
/// The two spec functions say what the executable ones compute, and the law
/// says that decryption undoes encryption.
pub trait BlockCipher {
    /// The ciphertext block for a plaintext block of 16 bytes.
    spec fn spec_encrypt_block(&self, block: Seq<u8>) -> Seq<u8>;

    /// The plaintext block for a ciphertext block of 16 bytes.
    spec fn spec_decrypt_block(&self, block: Seq<u8>) -> Seq<u8>;

    /// Encrypts one block.
    fn encrypt_block(&self, block: [u8; 16]) -> (r: [u8; 16])
        ensures
            r@ == self.spec_encrypt_block(block@),
    ;

    /// Decrypts one block.
    fn decrypt_block(&self, block: [u8; 16]) -> (r: [u8; 16])
        ensures
            r@ == self.spec_decrypt_block(block@),
    ;

    /// A block stays a block under encryption, and decrypting it gives the
    /// plaintext block back.
    proof fn lemma_block_round_trip(&self, block: Seq<u8>)
        requires
            block.len() == 16,
        ensures
            self.spec_encrypt_block(block).len() == 16,
            self.spec_decrypt_block(self.spec_encrypt_block(block)) == block,
    ;
}

/// How the blocks of a buffer are chained.
pub enum Mode {
    /// Electronic codebook: every block on its own.
    Ecb,
    /// Cipher block chaining, with its initialization vector.
    Cbc([u8; 16]),
}

/// The `i`-th block of 16 bytes in `data`.
pub open spec fn block_at(data: Seq<u8>, i: int) -> Seq<u8> {
    data.subrange(16 * i, 16 * i + 16)
}

/// ECB encryption: block `i` of the result is the encryption of block `i` of
/// the plaintext.
pub open spec fn ecb_encrypt_spec<C: BlockCipher>(cipher: &C, plain: Seq<u8>) -> Seq<u8> {
    Seq::new(plain.len(), |j: int| cipher.spec_encrypt_block(block_at(plain, j / 16))[j % 16])
}

/// ECB decryption: block `i` of the result is the decryption of block `i` of
/// the ciphertext.
pub open spec fn ecb_decrypt_spec<C: BlockCipher>(cipher: &C, crypt: Seq<u8>) -> Seq<u8> {
    Seq::new(crypt.len(), |j: int| cipher.spec_decrypt_block(block_at(crypt, j / 16))[j % 16])
}

/// The block that CBC chains into block `i`: the initialization vector for
/// the first block, and the ciphertext block before it for every other.
pub open spec fn cbc_chain_block(iv: Seq<u8>, crypt: Seq<u8>, i: int) -> Seq<u8> {
    if i <= 0 {
        iv
    } else {
        block_at(crypt, i - 1)
    }
}

/// Block `i` of a CBC ciphertext: the encryption of plaintext block `i`
/// XORed with the ciphertext block before it, or with the initialization
/// vector for the first block.
pub open spec fn cbc_cipher_block<C: BlockCipher>(
    cipher: &C,
    iv: Seq<u8>,
    plain: Seq<u8>,
    i: int,
) -> Seq<u8>
    decreases i,
{
    if i <= 0 {
        cipher.spec_encrypt_block(xor_spec(block_at(plain, 0), iv))
    } else {
        cipher.spec_encrypt_block(
            xor_spec(block_at(plain, i), cbc_cipher_block(cipher, iv, plain, i - 1)),
        )
    }
}

/// CBC encryption of a whole buffer.
pub open spec fn cbc_encrypt_spec<C: BlockCipher>(cipher: &C, iv: Seq<u8>, plain: Seq<u8>) -> Seq<
    u8,
> {
    Seq::new(plain.len(), |j: int| cbc_cipher_block(cipher, iv, plain, j / 16)[j % 16])
}

/// CBC decryption of a whole buffer: block `i` of the result is the
/// decryption of ciphertext block `i`, XORed with the block chained into it.
pub open spec fn cbc_decrypt_spec<C: BlockCipher>(cipher: &C, iv: Seq<u8>, crypt: Seq<u8>) -> Seq<
    u8,
> {
    Seq::new(
        crypt.len(),
        |j: int|
            xor_spec(
                cipher.spec_decrypt_block(block_at(crypt, j / 16)),
                cbc_chain_block(iv, crypt, j / 16),
            )[j % 16],
    )
}

/// Copies block `i` out of `data`.
fn load_block(data: &[u8], i: usize) -> (r: [u8; 16])
    requires
        16 * (i + 1) <= data@.len(),
    ensures
        r@ == block_at(data@, i as int),
{
    let mut block: [u8; 16] = [0; 16];
    let total: usize = data.len();
    for j in 0..16usize
        invariant
            16 * (i + 1) <= total == data@.len(),
            forall|k: int| 0 <= k < j ==> block@[k] == data@[16 * i + k],
    {
        block[j] = data[16 * i + j];
    }
    assert(block@ =~= block_at(data@, i as int));
    block
}

/// XORs two blocks byte by byte.
fn xor_blocks(a: &[u8; 16], b: &[u8; 16]) -> (r: [u8; 16])
    ensures
        r@ == xor_spec(a@, b@),
{
    let mut block: [u8; 16] = [0; 16];
    for j in 0..16usize
        invariant
            forall|k: int| 0 <= k < j ==> block@[k] == a@[k] ^ b@[k],
    {
        block[j] = a[j] ^ b[j];
    }
    assert(block@ =~= xor_spec(a@, b@));
    block
}

/// Appends a block to a buffer.
fn push_block(out: &mut Vec<u8>, block: &[u8; 16])
    ensures
        final(out)@ == old(out)@ + block@,
{
    for j in 0..16usize
        invariant
            out@ == old(out)@ + block@.take(j as int),
    {
        out.push(block[j]);
        assert(block@.take(j + 1) =~= block@.take(j as int).push(block@[j as int]));
    }
    assert(block@.take(16) =~= block@);
}

impl Mode {
    /// What encryption in this mode makes of `plain`, whose length is a
    /// multiple of 16.
    pub open spec fn encrypt_spec<C: BlockCipher>(self, cipher: &C, plain: Seq<u8>) -> Seq<u8> {
        match self {
            Mode::Ecb => ecb_encrypt_spec(cipher, plain),
            Mode::Cbc(iv) => cbc_encrypt_spec(cipher, iv@, plain),
        }
    }

    /// What decryption in this mode makes of `crypt`, whose length is a
    /// multiple of 16.
    pub open spec fn decrypt_spec<C: BlockCipher>(self, cipher: &C, crypt: Seq<u8>) -> Seq<u8> {
        match self {
            Mode::Ecb => ecb_decrypt_spec(cipher, crypt),
            Mode::Cbc(iv) => cbc_decrypt_spec(cipher, iv@, crypt),
        }
    }

    /// Encrypts `plain` block by block. Nothing is padded: a buffer that is
    /// not a whole number of blocks is rejected.
    pub fn encrypt<C: BlockCipher>(self, cipher: C, plain: &[u8]) -> (r: Result<Vec<u8>, Error>)
        ensures
            plain@.len() % 16 == 0 ==> (r matches Ok(crypt) && crypt@ == self.encrypt_spec(
                &cipher,
                plain@,
            )),
            plain@.len() % 16 != 0 ==> r == Err::<Vec<u8>, Error>(Error::LengthMismatch),
    {
        if plain.len() % 16 != 0 {
            return Err(Error::LengthMismatch);
        }
        let blocks: usize = plain.len() / 16;
        let mut crypt: Vec<u8> = Vec::new();
        match self {
            Mode::Ecb => {
                for i in 0..blocks
                    invariant
                        plain@.len() == 16 * blocks,
                        crypt@.len() == 16 * i,
                        forall|j: int|
                            0 <= j < 16 * i ==> crypt@[j] == cipher.spec_encrypt_block(
                                block_at(plain@, j / 16),
                            )[j % 16],
                {
                    let block = load_block(plain, i);
                    let out = cipher.encrypt_block(block);
                    push_block(&mut crypt, &out);
                }
                assert(crypt@ =~= ecb_encrypt_spec(&cipher, plain@));
            },
            Mode::Cbc(iv) => {
                let mut y: [u8; 16] = iv;
                for i in 0..blocks
                    invariant
                        plain@.len() == 16 * blocks,
                        crypt@.len() == 16 * i,
                        i == 0 ==> y@ == iv@,
                        i > 0 ==> y@ == cbc_cipher_block(&cipher, iv@, plain@, i - 1),
                        forall|j: int|
                            0 <= j < 16 * i ==> crypt@[j] == cbc_cipher_block(
                                &cipher,
                                iv@,
                                plain@,
                                j / 16,
                            )[j % 16],
                {
                    let block = load_block(plain, i);
                    let mixed = xor_blocks(&block, &y);
                    y = cipher.encrypt_block(mixed);
                    push_block(&mut crypt, &y);
                }
                assert(crypt@ =~= cbc_encrypt_spec(&cipher, iv@, plain@));
            },
        }
        Ok(crypt)
    }

    /// Decrypts `crypt` block by block. A buffer that is not a whole number
    /// of blocks is rejected.
    pub fn decrypt<C: BlockCipher>(self, cipher: C, crypt: &[u8]) -> (r: Result<Vec<u8>, Error>)
        ensures
            crypt@.len() % 16 == 0 ==> (r matches Ok(plain) && plain@ == self.decrypt_spec(
                &cipher,
                crypt@,
            )),
            crypt@.len() % 16 != 0 ==> r == Err::<Vec<u8>, Error>(Error::LengthMismatch),
    {
        if crypt.len() % 16 != 0 {
            return Err(Error::LengthMismatch);
        }
        let blocks: usize = crypt.len() / 16;
        let mut plain: Vec<u8> = Vec::new();
        match self {
            Mode::Ecb => {
                for i in 0..blocks
                    invariant
                        crypt@.len() == 16 * blocks,
                        plain@.len() == 16 * i,
                        forall|j: int|
                            0 <= j < 16 * i ==> plain@[j] == cipher.spec_decrypt_block(
                                block_at(crypt@, j / 16),
                            )[j % 16],
                {
                    let block = load_block(crypt, i);
                    let out = cipher.decrypt_block(block);
                    push_block(&mut plain, &out);
                }
                assert(plain@ =~= ecb_decrypt_spec(&cipher, crypt@));
            },
            Mode::Cbc(iv) => {
                let mut y: [u8; 16] = iv;
                for i in 0..blocks
                    invariant
                        crypt@.len() == 16 * blocks,
                        plain@.len() == 16 * i,
                        y@ == cbc_chain_block(iv@, crypt@, i as int),
                        forall|j: int|
                            0 <= j < 16 * i ==> plain@[j] == xor_spec(
                                cipher.spec_decrypt_block(block_at(crypt@, j / 16)),
                                cbc_chain_block(iv@, crypt@, j / 16),
                            )[j % 16],
                {
                    let block = load_block(crypt, i);
                    let raw = cipher.decrypt_block(block);
                    let out = xor_blocks(&raw, &y);
                    y = block;
                    push_block(&mut plain, &out);
                }
                assert(plain@ =~= cbc_decrypt_spec(&cipher, iv@, crypt@));
            },
        }
        Ok(plain)
    }
}

/// Every block of a CBC ciphertext has 16 bytes.
proof fn lemma_cbc_cipher_block_len<C: BlockCipher>(
    cipher: &C,
    iv: Seq<u8>,
    plain: Seq<u8>,
    i: int,
)
    requires
        0 <= i,
        16 * (i + 1) <= plain.len(),
    ensures
        cbc_cipher_block(cipher, iv, plain, i).len() == 16,
    decreases i,
{
    if i == 0 {
        cipher.lemma_block_round_trip(xor_spec(block_at(plain, 0), iv));
    } else {
        cipher.lemma_block_round_trip(
            xor_spec(block_at(plain, i), cbc_cipher_block(cipher, iv, plain, i - 1)),
        );
    }
}

/// ECB decryption undoes ECB encryption.
proof fn lemma_ecb_round_trip<C: BlockCipher>(cipher: &C, plain: Seq<u8>)
    requires
        plain.len() % 16 == 0,
    ensures
        ecb_decrypt_spec(cipher, ecb_encrypt_spec(cipher, plain)) == plain,
{
    let crypt = ecb_encrypt_spec(cipher, plain);
    assert forall|j: int| 0 <= j < plain.len() implies ecb_decrypt_spec(cipher, crypt)[j]
        == plain[j] by {
        let i = j / 16;
        cipher.lemma_block_round_trip(block_at(plain, i));
        assert(block_at(crypt, i) =~= cipher.spec_encrypt_block(block_at(plain, i))) by {
            assert forall|k: int| 0 <= k < 16 implies block_at(crypt, i)[k]
                == cipher.spec_encrypt_block(block_at(plain, i))[k] by {
                assert((16 * i + k) / 16 == i && (16 * i + k) % 16 == k);
            }
        }
    }
    assert(ecb_decrypt_spec(cipher, crypt) =~= plain);
}

/// CBC decryption undoes CBC encryption under the same initialization
/// vector.
proof fn lemma_cbc_round_trip<C: BlockCipher>(cipher: &C, iv: Seq<u8>, plain: Seq<u8>)
    requires
        plain.len() % 16 == 0,
    ensures
        cbc_decrypt_spec(cipher, iv, cbc_encrypt_spec(cipher, iv, plain)) == plain,
{
    let crypt = cbc_encrypt_spec(cipher, iv, plain);
    assert forall|i: int| 0 <= i && 16 * (i + 1) <= plain.len() implies #[trigger] block_at(
        crypt,
        i,
    ) == cbc_cipher_block(cipher, iv, plain, i) by {
        lemma_cbc_cipher_block_len(cipher, iv, plain, i);
        assert forall|k: int| 0 <= k < 16 implies block_at(crypt, i)[k] == cbc_cipher_block(
            cipher,
            iv,
            plain,
            i,
        )[k] by {
            assert((16 * i + k) / 16 == i && (16 * i + k) % 16 == k);
        }
        assert(block_at(crypt, i) =~= cbc_cipher_block(cipher, iv, plain, i));
    }
    assert forall|j: int| 0 <= j < plain.len() implies cbc_decrypt_spec(cipher, iv, crypt)[j]
        == plain[j] by {
        let i = j / 16;
        let before = cbc_chain_block(iv, crypt, i);
        let mixed = xor_spec(block_at(plain, i), before);
        assert(block_at(crypt, i) == cbc_cipher_block(cipher, iv, plain, i));
        if i > 0 {
            assert(block_at(crypt, i - 1) == cbc_cipher_block(cipher, iv, plain, i - 1));
        }
        assert(cbc_cipher_block(cipher, iv, plain, i) == cipher.spec_encrypt_block(mixed));
        cipher.lemma_block_round_trip(mixed);
        lemma_xor_twice(block_at(plain, i), before);
    }
    assert(cbc_decrypt_spec(cipher, iv, crypt) =~= plain);
}

/// In either mode, and whatever the cipher and the initialization vector,
/// decrypting the encryption of a whole number of blocks gives them back.
pub proof fn lemma_mode_round_trip<C: BlockCipher>(mode: Mode, cipher: &C, plain: Seq<u8>)
    requires
        plain.len() % 16 == 0,
    ensures
        mode.decrypt_spec(cipher, mode.encrypt_spec(cipher, plain)) == plain,
{
    match mode {
        Mode::Ecb => lemma_ecb_round_trip(cipher, plain),
        Mode::Cbc(iv) => lemma_cbc_round_trip(cipher, iv@, plain),
    }
}

} // verus!
