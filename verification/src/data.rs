//! The known plaintext, the ciphertext it belongs to, and the keystream between them.

use vstd::prelude::*;

verus! {

/// Why a pair of plaintext and ciphertext cannot be attacked.
#[derive(Clone, Copy, Debug, PartialEq, Eq, Structural)]
pub enum InputError {
    /// The plaintext would start before the encryption header.
    OffsetTooSmall,
    /// Fewer than twelve bytes of plaintext are known.
    PlaintextTooSmall,
    /// The ciphertext has fewer bytes than the plaintext.
    CiphertextTooSmall,
    /// The plaintext would end after the ciphertext.
    OffsetTooLarge,
}

/// Everything the attack reads: both texts, where the plaintext lies in the
/// ciphertext, and the keystream bytes that follow from them.
#[derive(Debug)]
pub struct Data {
    /// The encrypted entry, from its encryption header on.
    pub cipher_text: Vec<u8>,
    /// The known plaintext.
    pub plain_text: Vec<u8>,
    /// The keystream bytes under the known plaintext.
    pub keystream: Vec<u8>,
    /// Where the plaintext starts, counted from the end of the encryption header.
    pub offset: i32,
}

/// The verdict on a pair of texts, from their lengths and the offset alone.
pub open spec fn input_check(plain_len: nat, cipher_len: nat, offset: i32) -> Option<InputError> {
    if Data::HEADER_SIZE + offset < 0 {
        Some(InputError::OffsetTooSmall)
    } else if plain_len < Data::MIN_PLAIN_SIZE {
        Some(InputError::PlaintextTooSmall)
    } else if plain_len > cipher_len {
        Some(InputError::CiphertextTooSmall)
    } else if Data::HEADER_SIZE + offset + plain_len > cipher_len {
        Some(InputError::OffsetTooLarge)
    } else {
        None
    }
}

/// The keystream: each plaintext byte combined with the ciphertext byte that encrypts it.
pub open spec fn keystream_of(plain: Seq<u8>, cipher: Seq<u8>, offset: i32) -> Seq<u8> {
    Seq::new(plain.len(), |j: int| plain[j] ^ cipher[Data::HEADER_SIZE + offset + j])
}

impl InputError {
    /// A short description of the error.
    pub fn message(&self) -> (text: &'static str)
        ensures
            text@ == match *self {
                InputError::OffsetTooSmall => "offset is too small"@,
                InputError::PlaintextTooSmall => "plaintext is too small"@,
                InputError::CiphertextTooSmall => "ciphertext is smaller than plaintext"@,
                InputError::OffsetTooLarge => "offset is too large"@,
            },
    {
        match self {
            InputError::OffsetTooSmall => "offset is too small",
            InputError::PlaintextTooSmall => "plaintext is too small",
            InputError::CiphertextTooSmall => "ciphertext is smaller than plaintext",
            InputError::OffsetTooLarge => "offset is too large",
        }
    }
}

impl Clone for Data {
    fn clone(&self) -> (data: Data)
        ensures
            data.cipher_text@ == self.cipher_text@,
            data.plain_text@ == self.plain_text@,
            data.keystream@ == self.keystream@,
            data.offset == self.offset,
    {
        let cipher_text = self.cipher_text.clone();
        let plain_text = self.plain_text.clone();
        let keystream = self.keystream.clone();
        assert(cipher_text@ =~= self.cipher_text@);
        assert(plain_text@ =~= self.plain_text@);
        assert(keystream@ =~= self.keystream@);
        Data { cipher_text, plain_text, keystream, offset: self.offset }
    }
}

impl Data {
    /// The length of the encryption header that precedes every encrypted entry.
    pub const HEADER_SIZE: usize = 12;

    /// The least number of plaintext bytes that the attack needs.
    pub const MIN_PLAIN_SIZE: usize = 12;

    /// Whether the texts fit together and the keystream is the one they determine.
    pub open spec fn wf(&self) -> bool {
        &&& input_check(self.plain_text@.len(), self.cipher_text@.len(), self.offset) is None
        &&& self.keystream@ == keystream_of(self.plain_text@, self.cipher_text@, self.offset)
    }

    /// The position in the ciphertext of the byte that encrypts the first plaintext byte.
    pub open spec fn start(&self) -> int {
        Data::HEADER_SIZE + self.offset
    }

    /// How many bytes of ciphertext, header included, cover a plaintext of
    /// `plain_len` bytes at `offset`; `None` when the offset reaches before the
    /// header or the count does not fit the machine word.
    pub fn cipher_size_needed(offset: i32, plain_len: usize) -> (size: Option<usize>)
        ensures
            size == if Data::HEADER_SIZE + offset >= 0 && Data::HEADER_SIZE + offset + plain_len
                <= usize::MAX {
                Some((Data::HEADER_SIZE + offset + plain_len) as usize)
            } else {
                None
            },
    {
        if offset < -12 {
            return None;
        }
        let start: usize = (12 + offset as i64) as usize;
        start.checked_add(plain_len)
    }

    /// The verdict on a pair of texts, from their lengths and the offset alone.
    ///
    /// The offset is judged first, then the length of the plaintext, then
    /// that of the ciphertext against both.
    pub fn check(plain_len: usize, cipher_len: usize, offset: i32) -> (verdict: Option<InputError>)
        ensures
            verdict == input_check(plain_len as nat, cipher_len as nat, offset),
    {
        if offset < -12 {
            return Some(InputError::OffsetTooSmall);
        }
        if plain_len < Data::MIN_PLAIN_SIZE {
            return Some(InputError::PlaintextTooSmall);
        }
        if plain_len > cipher_len {
            return Some(InputError::CiphertextTooSmall);
        }
        let start: usize = (12 + offset as i64) as usize;
        if start > cipher_len || cipher_len - start < plain_len {
            return Some(InputError::OffsetTooLarge);
        }
        None
    }

    /// Checks the texts against each other and computes the keystream.
    pub fn new(plain_text: Vec<u8>, cipher_text: Vec<u8>, offset: i32) -> (result: Result<
        Data,
        InputError,
    >)
        ensures
            match result {
                Ok(data) => {
                    &&& input_check(plain_text@.len(), cipher_text@.len(), offset) is None
                    &&& data.wf()
                    &&& data.plain_text@ == plain_text@
                    &&& data.cipher_text@ == cipher_text@
                    &&& data.offset == offset
                },
                Err(e) => input_check(plain_text@.len(), cipher_text@.len(), offset) == Some(e),
            },
    {
        match Data::check(plain_text.len(), cipher_text.len(), offset) {
            Some(e) => {
                return Err(e);
            },
            None => {},
        }
        let start: usize = (12 + offset as i64) as usize;
        let mut keystream: Vec<u8> = Vec::new();
        let mut j: usize = 0;
        while j < plain_text.len()
            invariant
                j <= plain_text@.len(),
                start == Data::HEADER_SIZE + offset,
                start + plain_text@.len() <= cipher_text@.len() <= usize::MAX,
                keystream@.len() == j,
                forall|h: int|
                    0 <= h < j ==> #[trigger] keystream@[h] == plain_text@[h] ^ cipher_text@[start
                        + h],
            decreases plain_text@.len() - j,
        {
            keystream.push(plain_text[j] ^ cipher_text[start + j]);
            j += 1;
        }
        assert(keystream@ =~= keystream_of(plain_text@, cipher_text@, offset));
        Ok(Data { cipher_text, plain_text, keystream, offset })
    }
}

} // verus!
