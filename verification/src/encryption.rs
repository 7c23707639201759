//! Stream cipher wrappers: read and write adapters that pass bytes through
//! a block cipher in 8-bit cipher-feedback mode, applied at the transport's
//! outermost layer. The key and initialisation vector are supplied by the
//! collaborator that negotiated them, with the key doubling as the vector.
//!
//! The cipher is chained: each byte's transform depends on the key, the
//! initialisation vector and every byte fed before it. The named stream
//! functions below capture exactly that: what comes out of the cipher is a
//! function of the key and the history, nothing else.

use vstd::prelude::*;

use crate::error::TransportResult;
use crate::reader::ByteReader;

verus! {

/// What the cipher-feedback encryptor under `key` (doubling as the vector)
/// emits for the chunk `data`, after `fed` was already encrypted.
pub uninterp spec fn cfb8_enc(key: Seq<u8>, fed: Seq<u8>, data: Seq<u8>) -> Seq<u8>;

/// What the cipher-feedback decryptor under `key` (doubling as the vector)
/// emits for the chunk `data`, after the ciphertext `fed` was already fed.
pub uninterp spec fn cfb8_dec(key: Seq<u8>, fed: Seq<u8>, data: Seq<u8>) -> Seq<u8>;

#[verifier::external_body]
struct CipherInner {
    raw: cfb8::Cfb8<aes::Aes128>,
}

/// A cipher-feedback cipher together with its mathematical position in the
/// stream: the key it was made with, the bytes fed to it so far, and the
/// bytes it emitted for them.
pub struct StreamCipher {
    inner: CipherInner,
    key: Ghost<Seq<u8>>,
    fed: Ghost<Seq<u8>>,
    produced: Ghost<Seq<u8>>,
}

impl StreamCipher {
    /// The key this cipher was made with.
    pub closed spec fn key(self) -> Seq<u8> {
        self.key@
    }

    /// The bytes fed to this cipher so far.
    pub closed spec fn fed(self) -> Seq<u8> {
        self.fed@
    }

    /// The bytes this cipher emitted so far.
    pub closed spec fn produced(self) -> Seq<u8> {
        self.produced@
    }
}

/// Relies on `cfb8::Cfb8::new_from_slices` with the key doubling as the
/// initialisation vector: it succeeds exactly on a 16-byte key.
#[verifier::external_body]
fn new_cipher_inner(key: &Vec<u8>) -> (r: Option<CipherInner>)
    ensures
        r is Some <==> key@.len() == 16,
{
    match aes::cipher::NewCipher::new_from_slices(key, key) {
        Ok(raw) => Some(CipherInner { raw }),
        Err(_) => None,
    }
}

/// Makes a cipher at the start of its stream, under the given 16-byte key.
fn new_cipher(key: &Vec<u8>) -> (r: Option<StreamCipher>)
    ensures
        r is Some <==> key@.len() == 16,
        r matches Some(c) ==> c.key() == key@ && c.fed() == Seq::<u8>::empty() && c.produced()
            == Seq::<u8>::empty(),
{
    match new_cipher_inner(key) {
        Some(inner) => Some(
            StreamCipher {
                inner,
                key: Ghost(key@),
                fed: Ghost(Seq::empty()),
                produced: Ghost(Seq::empty()),
            },
        ),
        None => None,
    }
}

/// Relies on `cfb8`'s `encrypt`: the bytes are transformed in place, one
/// output byte for each input byte; the output is a function of the key and
/// the bytes fed so far; and a decryptor that was fed this cipher's earlier
/// output recovers the chunk exactly.
#[verifier::external_body]
fn cipher_encrypt(cipher: &mut StreamCipher, data: &mut Vec<u8>)
    ensures
        final(cipher).key() == old(cipher).key(),
        final(cipher).fed() == old(cipher).fed() + old(data)@,
        final(cipher).produced() == old(cipher).produced() + final(data)@,
        final(data)@ == cfb8_enc(old(cipher).key(), old(cipher).fed(), old(data)@),
        final(data)@.len() == old(data)@.len(),
        cfb8_dec(old(cipher).key(), old(cipher).produced(), final(data)@) == old(data)@,
{
    aes::cipher::AsyncStreamCipher::encrypt(&mut cipher.inner.raw, data.as_mut_slice())
}

/// Relies on `cfb8`'s `decrypt`: the bytes are transformed in place, one
/// output byte for each input byte, and the output is a function of the key
/// and the ciphertext fed so far.
#[verifier::external_body]
fn cipher_decrypt(cipher: &mut StreamCipher, data: &mut Vec<u8>)
    ensures
        final(cipher).key() == old(cipher).key(),
        final(cipher).fed() == old(cipher).fed() + old(data)@,
        final(cipher).produced() == old(cipher).produced() + final(data)@,
        final(data)@ == cfb8_dec(old(cipher).key(), old(cipher).fed(), old(data)@),
        final(data)@.len() == old(data)@.len(),
{
    aes::cipher::AsyncStreamCipher::decrypt(&mut cipher.inner.raw, data.as_mut_slice())
}

/// A writer wrapper that encrypts all written data into its sink. Without a
/// cipher it passes bytes through unchanged.
pub struct EncryptedWriter {
    write: Vec<u8>,
    cipher: Option<StreamCipher>,
}

impl EncryptedWriter {
    /// The bytes written to the sink so far.
    pub closed spec fn sink(self) -> Seq<u8> {
        self.write@
    }

    /// Whether writes are transformed by the cipher.
    pub closed spec fn is_encrypting(self) -> bool {
        self.cipher is Some
    }

    /// The key the cipher was made with; the empty sequence when there is
    /// no cipher.
    pub closed spec fn key(self) -> Seq<u8> {
        match self.cipher {
            Some(c) => c.key(),
            None => Seq::empty(),
        }
    }

    /// The plaintext fed to the cipher so far; the empty sequence when there
    /// is no cipher.
    pub closed spec fn fed(self) -> Seq<u8> {
        match self.cipher {
            Some(c) => c.fed(),
            None => Seq::empty(),
        }
    }

    /// The ciphertext the cipher emitted so far; the empty sequence when
    /// there is no cipher.
    pub closed spec fn produced(self) -> Seq<u8> {
        match self.cipher {
            Some(c) => c.produced(),
            None => Seq::empty(),
        }
    }

    /// Creates a writer that encrypts with the given 16-byte key, with the
    /// cipher at the start of its stream.
    pub fn new(write: Vec<u8>, cipher_key: &Vec<u8>) -> (r: Self)
        requires
            cipher_key@.len() == 16,
        ensures
            r.sink() == write@,
            r.is_encrypting(),
            r.key() == cipher_key@,
            r.fed() == Seq::<u8>::empty(),
            r.produced() == Seq::<u8>::empty(),
    {
        let cipher = new_cipher(cipher_key);
        EncryptedWriter { write, cipher }
    }

    /// Creates a writer that does nothing except pass bytes through.
    pub fn noop(write: Vec<u8>) -> (r: Self)
        ensures
            r.sink() == write@,
            !r.is_encrypting(),
    {
        EncryptedWriter { write, cipher: None }
    }

    /// Writes one chunk. Without a cipher the bytes land unchanged; with one,
    /// the sink grows by exactly the cipher stream's next bytes for the
    /// chunk, and decrypting them after this writer's earlier output yields
    /// the chunk back.
    pub fn write(&mut self, buf: &Vec<u8>)
        ensures
            final(self).is_encrypting() == old(self).is_encrypting(),
            final(self).key() == old(self).key(),
            final(self).sink().len() == old(self).sink().len() + buf@.len(),
            !old(self).is_encrypting() ==> final(self).sink() == old(self).sink() + buf@,
            old(self).is_encrypting() ==> {
                let chunk = cfb8_enc(old(self).key(), old(self).fed(), buf@);
                &&& final(self).sink() == old(self).sink() + chunk
                &&& final(self).fed() == old(self).fed() + buf@
                &&& final(self).produced() == old(self).produced() + chunk
                &&& cfb8_dec(old(self).key(), old(self).produced(), chunk) == buf@
            },
    {
        let mut block: Vec<u8> = Vec::new();
        crate::packet::string::append_bytes(&mut block, buf);
        match &mut self.cipher {
            Some(c) => {
                cipher_encrypt(c, &mut block);
            },
            None => {},
        }
        crate::packet::string::append_bytes(&mut self.write, &block);
    }

    /// Hands the sink back.
    pub fn into_inner(self) -> (r: Vec<u8>)
        ensures
            r@ == self.sink(),
    {
        self.write
    }
}

/// A reader wrapper that decrypts all read data. Without a cipher it passes
/// bytes through unchanged.
pub struct DecryptRead {
    read: ByteReader,
    cipher: Option<StreamCipher>,
}

impl DecryptRead {
    /// The bytes not yet read from the source.
    pub closed spec fn source(self) -> Seq<u8> {
        self.read@
    }

    /// The source cursor is well formed.
    pub closed spec fn wf(self) -> bool {
        self.read.wf()
    }

    /// Whether reads are transformed by the cipher.
    pub closed spec fn is_decrypting(self) -> bool {
        self.cipher is Some
    }

    /// The key the cipher was made with; the empty sequence when there is
    /// no cipher.
    pub closed spec fn key(self) -> Seq<u8> {
        match self.cipher {
            Some(c) => c.key(),
            None => Seq::empty(),
        }
    }

    /// The ciphertext fed to the cipher so far; the empty sequence when
    /// there is no cipher.
    pub closed spec fn fed(self) -> Seq<u8> {
        match self.cipher {
            Some(c) => c.fed(),
            None => Seq::empty(),
        }
    }

    /// Creates a reader that decrypts with the given 16-byte key, with the
    /// cipher at the start of its stream.
    pub fn new(read: ByteReader, cipher_key: &Vec<u8>) -> (r: Self)
        requires
            read.wf(),
            cipher_key@.len() == 16,
        ensures
            r.wf(),
            r.source() == read@,
            r.is_decrypting(),
            r.key() == cipher_key@,
            r.fed() == Seq::<u8>::empty(),
    {
        let cipher = new_cipher(cipher_key);
        DecryptRead { read, cipher }
    }

    /// Creates a reader that does nothing except pass bytes through.
    pub fn noop(read: ByteReader) -> (r: Self)
        requires
            read.wf(),
        ensures
            r.wf(),
            r.source() == read@,
            !r.is_decrypting(),
    {
        DecryptRead { read, cipher: None }
    }

    /// Reads and transforms exactly `n` bytes, failing with an end-of-stream
    /// error when fewer are left. Without a cipher the bytes pass through
    /// unchanged; with one, the result is exactly the cipher stream's next
    /// bytes for the consumed ciphertext.
    pub fn read_exact(&mut self, n: usize) -> (res: TransportResult<Vec<u8>>)
        requires
            old(self).wf(),
        ensures
            final(self).wf(),
            final(self).is_decrypting() == old(self).is_decrypting(),
            final(self).key() == old(self).key(),
            n > old(self).source().len() ==> (res matches Err(e) && e.error_type
                == crate::error::ErrorType::EOF && final(self).source() == old(self).source()
                && final(self).fed() == old(self).fed()),
            n <= old(self).source().len() ==> (res matches Ok(v) && v@.len() == n && final(self).source() == old(self).source().skip(n as int)),
            n <= old(self).source().len() && !old(self).is_decrypting() ==> (res matches Ok(v)
                && v@ == old(self).source().take(n as int)),
            n <= old(self).source().len() && old(self).is_decrypting() ==> (res matches Ok(v) && v@
                == cfb8_dec(old(self).key(), old(self).fed(), old(self).source().take(n as int))
                && final(self).fed() == old(self).fed() + old(self).source().take(n as int)),
    {
        let mut block = match self.read.read_exact(n) {
            Ok(v) => v,
            Err(e) => {
                return Err(e);
            },
        };
        match &mut self.cipher {
            Some(c) => {
                cipher_decrypt(c, &mut block);
            },
            None => {},
        }
        Ok(block)
    }

    /// Hands the remaining source back as a well-formed cursor.
    pub fn into_inner(self) -> (r: ByteReader)
        requires
            self.wf(),
        ensures
            r.wf(),
            r@ == self.source(),
    {
        self.read
    }
}

} // verus!
