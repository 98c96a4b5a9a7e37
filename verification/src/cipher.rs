//! AES-128/CFB8 stream encryption. The block cipher is the aes crate's;
//! the CFB8 mode around it is implemented and verified here. By protocol
//! convention the initialization vector equals the key.

use vstd::prelude::*;
use vstd::pervasive::VecAdditionalExecFns;
use aes::cipher::BlockEncrypt;
use aes::cipher::KeyInit;

verus! {

/// What AES-128 encryption of one 16-byte block returns; a function of the
/// key and the block alone.
pub uninterp spec fn aes_block_of(key: Seq<u8>, block: Seq<u8>) -> Seq<u8>;

/// Relies on the aes crate's AES-128: `encrypt_block` turns a 16-byte
/// block into a 16-byte ciphertext block determined by key and input.
#[verifier::external_body]
fn aes128_encrypt_block(key: &Vec<u8>, block: &Vec<u8>) -> (r: Vec<u8>)
    requires
        key@.len() == 16,
        block@.len() == 16,
    ensures
        r@ == aes_block_of(key@, block@),
        r@.len() == 16,
{
    let cipher = aes::Aes128::new_from_slice(key.as_slice()).unwrap();
    let mut b = aes::cipher::generic_array::GenericArray::clone_from_slice(block.as_slice());
    cipher.encrypt_block(&mut b);
    b.to_vec()
}

/// CFB8 encryption: each plaintext byte is masked with the first byte of
/// the encrypted shift register, and the ciphertext byte shifts in.
pub open spec fn cfb8_enc(key: Seq<u8>, iv: Seq<u8>, data: Seq<u8>) -> Seq<u8>
    decreases data.len(),
{
    if data.len() == 0 {
        Seq::empty()
    } else {
        let c = data[0] ^ aes_block_of(key, iv)[0];
        seq![c] + cfb8_enc(key, iv.skip(1).push(c), data.drop_first())
    }
}

/// The shift register after encrypting `data`.
pub open spec fn cfb8_enc_iv(key: Seq<u8>, iv: Seq<u8>, data: Seq<u8>) -> Seq<u8>
    decreases data.len(),
{
    if data.len() == 0 {
        iv
    } else {
        let c = data[0] ^ aes_block_of(key, iv)[0];
        cfb8_enc_iv(key, iv.skip(1).push(c), data.drop_first())
    }
}

/// CFB8 decryption: the ciphertext byte itself shifts in.
pub open spec fn cfb8_dec(key: Seq<u8>, iv: Seq<u8>, data: Seq<u8>) -> Seq<u8>
    decreases data.len(),
{
    if data.len() == 0 {
        Seq::empty()
    } else {
        let p = data[0] ^ aes_block_of(key, iv)[0];
        seq![p] + cfb8_dec(key, iv.skip(1).push(data[0]), data.drop_first())
    }
}

/// The shift register after decrypting `data`.
pub open spec fn cfb8_dec_iv(key: Seq<u8>, iv: Seq<u8>, data: Seq<u8>) -> Seq<u8>
    decreases data.len(),
{
    if data.len() == 0 {
        iv
    } else {
        cfb8_dec_iv(key, iv.skip(1).push(data[0]), data.drop_first())
    }
}

/// Encrypting and decrypting keep the length.
pub proof fn lemma_cfb8_len(key: Seq<u8>, iv: Seq<u8>, data: Seq<u8>)
    ensures
        cfb8_enc(key, iv, data).len() == data.len(),
        cfb8_dec(key, iv, data).len() == data.len(),
    decreases data.len(),
{
    if data.len() > 0 {
        let c = data[0] ^ aes_block_of(key, iv)[0];
        lemma_cfb8_len(key, iv.skip(1).push(c), data.drop_first());
        lemma_cfb8_len(key, iv.skip(1).push(data[0]), data.drop_first());
    }
}

/// Decrypting what was encrypted under the same key and register returns
/// the plaintext, and both registers end equal.
pub proof fn lemma_cfb8_inverse(key: Seq<u8>, iv: Seq<u8>, data: Seq<u8>)
    ensures
        cfb8_dec(key, iv, cfb8_enc(key, iv, data)) == data,
        cfb8_dec_iv(key, iv, cfb8_enc(key, iv, data)) == cfb8_enc_iv(key, iv, data),
    decreases data.len(),
{
    if data.len() > 0 {
        let e = aes_block_of(key, iv)[0];
        let d0 = data[0];
        let c = d0 ^ e;
        assert((d0 ^ e) ^ e == d0) by (bit_vector);
        let enc = cfb8_enc(key, iv, data);
        assert(enc[0] == c);
        assert(enc.drop_first() =~= cfb8_enc(key, iv.skip(1).push(c), data.drop_first()));
        lemma_cfb8_inverse(key, iv.skip(1).push(c), data.drop_first());
        assert(cfb8_dec(key, iv, enc) =~= data);
    } else {
        assert(cfb8_dec(key, iv, cfb8_enc(key, iv, data)) =~= data);
    }
}

/// Appending one byte to the plaintext appends one ciphertext byte.
pub proof fn lemma_cfb8_enc_snoc(key: Seq<u8>, iv: Seq<u8>, data: Seq<u8>, x: u8)
    ensures
        ({
            let c = x ^ aes_block_of(key, cfb8_enc_iv(key, iv, data))[0];
            cfb8_enc(key, iv, data.push(x)) == cfb8_enc(key, iv, data).push(c)
                && cfb8_enc_iv(key, iv, data.push(x)) == cfb8_enc_iv(key, iv, data).skip(1).push(c)
        }),
    decreases data.len(),
{
    if data.len() == 0 {
        let c = x ^ aes_block_of(key, iv)[0];
        assert(data.push(x)[0] == x);
        assert(data.push(x).drop_first() =~= Seq::<u8>::empty());
        assert(cfb8_enc_iv(key, iv, data) == iv);
        assert(cfb8_enc(key, iv, data) =~= Seq::<u8>::empty());
        assert(cfb8_enc(key, iv.skip(1).push(c), Seq::<u8>::empty()) =~= Seq::<u8>::empty());
        assert(cfb8_enc_iv(key, iv.skip(1).push(c), Seq::<u8>::empty()) == iv.skip(1).push(c));
        assert(cfb8_enc(key, iv, data.push(x)) =~= cfb8_enc(key, iv, data).push(c));
    } else {
        let c0 = data[0] ^ aes_block_of(key, iv)[0];
        assert(data.push(x)[0] == data[0]);
        assert(data.push(x).drop_first() =~= data.drop_first().push(x));
        lemma_cfb8_enc_snoc(key, iv.skip(1).push(c0), data.drop_first(), x);
        let c = x ^ aes_block_of(key, cfb8_enc_iv(key, iv, data))[0];
        assert(cfb8_enc(key, iv, data.push(x)) =~= cfb8_enc(key, iv, data).push(c));
    }
}

/// Appending one byte to the ciphertext appends one plaintext byte.
pub proof fn lemma_cfb8_dec_snoc(key: Seq<u8>, iv: Seq<u8>, data: Seq<u8>, x: u8)
    ensures
        ({
            let p = x ^ aes_block_of(key, cfb8_dec_iv(key, iv, data))[0];
            cfb8_dec(key, iv, data.push(x)) == cfb8_dec(key, iv, data).push(p)
                && cfb8_dec_iv(key, iv, data.push(x)) == cfb8_dec_iv(key, iv, data).skip(1).push(x)
        }),
    decreases data.len(),
{
    if data.len() == 0 {
        let p = x ^ aes_block_of(key, iv)[0];
        assert(data.push(x)[0] == x);
        assert(data.push(x).drop_first() =~= Seq::<u8>::empty());
        assert(cfb8_dec_iv(key, iv, data) == iv);
        assert(cfb8_dec(key, iv, data) =~= Seq::<u8>::empty());
        assert(cfb8_dec(key, iv.skip(1).push(x), Seq::<u8>::empty()) =~= Seq::<u8>::empty());
        assert(cfb8_dec_iv(key, iv.skip(1).push(x), Seq::<u8>::empty()) == iv.skip(1).push(x));
        assert(cfb8_dec(key, iv, data.push(x)) =~= cfb8_dec(key, iv, data).push(p));
    } else {
        assert(data.push(x)[0] == data[0]);
        assert(data.push(x).drop_first() =~= data.drop_first().push(x));
        lemma_cfb8_dec_snoc(key, iv.skip(1).push(data[0]), data.drop_first(), x);
        let p = x ^ aes_block_of(key, cfb8_dec_iv(key, iv, data))[0];
        assert(cfb8_dec(key, iv, data.push(x)) =~= cfb8_dec(key, iv, data).push(p));
    }
}

/// One direction of an AES-128/CFB8 stream cipher: the key and the current
/// shift register.
#[derive(Clone, Debug)]
pub struct Cfb8 {
    pub key: Vec<u8>,
    pub iv: Vec<u8>,
}

impl Cfb8 {
    pub open spec fn wf(&self) -> bool {
        self.key@.len() == 16 && self.iv@.len() == 16
    }

    /// A fresh cipher; the initialization vector equals the key, which is
    /// the protocol's convention.
    pub fn new(key: &Vec<u8>) -> (r: Cfb8)
        requires
            key@.len() == 16,
        ensures
            r.wf(),
            r.key@ == key@,
            r.iv@ == key@,
    {
        Cfb8 {
            key: crate::wire::copy_range(key, 0, 16),
            iv: crate::wire::copy_range(key, 0, 16),
        }
    }

    /// Encrypt `data` in place.
    pub fn encrypt(&mut self, data: &mut Vec<u8>)
        requires
            old(self).wf(),
        ensures
            final(self).wf(),
            final(self).key@ == old(self).key@,
            final(data)@ == cfb8_enc(old(self).key@, old(self).iv@, old(data)@),
            final(self).iv@ == cfb8_enc_iv(old(self).key@, old(self).iv@, old(data)@),
            final(data)@.len() == old(data)@.len(),
    {
        let ghost key0 = self.key@;
        let ghost iv0 = self.iv@;
        let mut i: usize = 0;
        proof {
            assert(old(data)@.take(0) =~= Seq::<u8>::empty());
        }
        while i < data.len()
            invariant
                i <= data@.len(),
                data@.len() == old(data)@.len(),
                self.wf(),
                self.key@ == key0,
                key0 == old(self).key@,
                iv0 == old(self).iv@,
                data@ == cfb8_enc(key0, iv0, old(data)@.take(i as int)) + old(data)@.skip(
                    i as int,
                ),
                self.iv@ == cfb8_enc_iv(key0, iv0, old(data)@.take(i as int)),
            decreases data@.len() - i as nat,
        {
            proof {
                lemma_cfb8_len(key0, iv0, old(data)@.take(i as int));
            }
            let block = aes128_encrypt_block(&self.key, &self.iv);
            let c: u8 = data[i] ^ block[0];
            proof {
                assert(data@[i as int] == old(data)@[i as int]);
            }
            data.set(i, c);
            self.iv.remove(0);
            self.iv.push(c);
            proof {
                lemma_cfb8_enc_snoc(key0, iv0, old(data)@.take(i as int), old(data)@[i as int]);
                assert(old(data)@.take(i as int).push(old(data)@[i as int]) =~= old(data)@.take(
                    i as int + 1,
                ));
                assert(data@ =~= cfb8_enc(key0, iv0, old(data)@.take(i as int + 1)) + old(
                    data,
                )@.skip(i as int + 1));
                assert(self.iv@ =~= cfb8_enc_iv(key0, iv0, old(data)@.take(i as int + 1)));
            }
            i = i + 1;
        }
        proof {
            assert(old(data)@.take(data@.len() as int) =~= old(data)@);
            assert(data@ =~= cfb8_enc(key0, iv0, old(data)@));
        }
    }

    /// Decrypt `data` in place.
    pub fn decrypt(&mut self, data: &mut Vec<u8>)
        requires
            old(self).wf(),
        ensures
            final(self).wf(),
            final(self).key@ == old(self).key@,
            final(data)@ == cfb8_dec(old(self).key@, old(self).iv@, old(data)@),
            final(self).iv@ == cfb8_dec_iv(old(self).key@, old(self).iv@, old(data)@),
            final(data)@.len() == old(data)@.len(),
    {
        let ghost key0 = self.key@;
        let ghost iv0 = self.iv@;
        let mut i: usize = 0;
        proof {
            assert(old(data)@.take(0) =~= Seq::<u8>::empty());
        }
        while i < data.len()
            invariant
                i <= data@.len(),
                data@.len() == old(data)@.len(),
                self.wf(),
                self.key@ == key0,
                key0 == old(self).key@,
                iv0 == old(self).iv@,
                data@ == cfb8_dec(key0, iv0, old(data)@.take(i as int)) + old(data)@.skip(
                    i as int,
                ),
                self.iv@ == cfb8_dec_iv(key0, iv0, old(data)@.take(i as int)),
            decreases data@.len() - i as nat,
        {
            proof {
                lemma_cfb8_len(key0, iv0, old(data)@.take(i as int));
            }
            let block = aes128_encrypt_block(&self.key, &self.iv);
            let x: u8 = data[i];
            let p: u8 = x ^ block[0];
            proof {
                assert(data@[i as int] == old(data)@[i as int]);
            }
            data.set(i, p);
            self.iv.remove(0);
            self.iv.push(x);
            proof {
                lemma_cfb8_dec_snoc(key0, iv0, old(data)@.take(i as int), old(data)@[i as int]);
                assert(old(data)@.take(i as int).push(old(data)@[i as int]) =~= old(data)@.take(
                    i as int + 1,
                ));
                assert(data@ =~= cfb8_dec(key0, iv0, old(data)@.take(i as int + 1)) + old(
                    data,
                )@.skip(i as int + 1));
                assert(self.iv@ =~= cfb8_dec_iv(key0, iv0, old(data)@.take(i as int + 1)));
            }
            i = i + 1;
        }
        proof {
            assert(old(data)@.take(data@.len() as int) =~= old(data)@);
            assert(data@ =~= cfb8_dec(key0, iv0, old(data)@));
        }
    }
}

/// The paired ciphers the login key exchange installs: both seeded from
/// the shared secret.
pub fn create_cipher(key: &Vec<u8>) -> (r: (Cfb8, Cfb8))
    requires
        key@.len() == 16,
    ensures
        r.0.wf() && r.0.key@ == key@ && r.0.iv@ == key@,
        r.1.wf() && r.1.key@ == key@ && r.1.iv@ == key@,
{
    (Cfb8::new(key), Cfb8::new(key))
}

} // verus!
