//! The three 32-bit keys of the cipher and their evolution byte by byte.

use vstd::prelude::*;
use crate::crc32_tab::{Crc32Tab, crc32_spec, crc32inv_spec, lemma_crc32inv_crc32, lemma_crc32_crc32inv};
use crate::keystream_tab::{KeystreamTab, keystream_byte};
use crate::mult_tab::MultTab;
use crate::utils::{lsb, msb, lsb_spec, msb_spec};

verus! {

/// The value of the three keys at one moment.
pub struct KeyState {
    /// The first key, a CRC-32 of the plaintext.
    pub x: u32,
    /// The second key, driven by the low byte of the first.
    pub y: u32,
    /// The third key, a CRC-32 of the top bytes of the second.
    pub z: u32,
}

/// The keys with which every encryption session starts, before the password is absorbed.
pub open spec fn initial_state() -> KeyState {
    KeyState { x: 0x1234_5678, y: 0x2345_6789, z: 0x3456_7890 }
}

/// The state after the cipher has absorbed plaintext byte `p`.
pub open spec fn update_spec(s: KeyState, p: u8) -> KeyState {
    let x = crc32_spec(s.x, p);
    let y = s.y.wrapping_add(lsb_spec(x) as u32).wrapping_mul(MultTab::MULT).wrapping_add(1);
    let z = crc32_spec(s.z, msb_spec(y));
    KeyState { x, y, z }
}

/// The state before the cipher produced ciphertext byte `c` and reached `s`.
pub open spec fn update_back_spec(s: KeyState, c: u8) -> KeyState {
    let z = crc32inv_spec(s.z, msb_spec(s.y));
    let y = s.y.wrapping_sub(1).wrapping_mul(MultTab::MULTINV).wrapping_sub(lsb_spec(s.x) as u32);
    let x = crc32inv_spec(s.x, c ^ keystream_byte(z));
    KeyState { x, y, z }
}

/// The ciphertext byte that the cipher in state `s` gives for plaintext byte `p`,
/// and equally the plaintext byte that it gives for ciphertext byte `p`.
pub open spec fn crypt_byte(s: KeyState, p: u8) -> u8 {
    p ^ keystream_byte(s.z)
}

/// The state reached from `s` by stepping backward over the ciphertext `cipher`,
/// last byte first.
pub open spec fn rewind(s: KeyState, cipher: Seq<u8>) -> KeyState
    decreases cipher.len(),
{
    if cipher.len() == 0 {
        s
    } else {
        rewind(update_back_spec(s, cipher.last()), cipher.drop_last())
    }
}

/// The state reached from `s` after deciphering the whole of `cipher`.
pub open spec fn state_after(s: KeyState, cipher: Seq<u8>) -> KeyState
    decreases cipher.len(),
{
    if cipher.len() == 0 {
        s
    } else {
        let before = state_after(s, cipher.drop_last());
        update_spec(before, crypt_byte(before, cipher.last()))
    }
}

/// The plaintext that the cipher started in state `s` recovers from `cipher`.
pub open spec fn deciphered(s: KeyState, cipher: Seq<u8>) -> Seq<u8> {
    Seq::new(cipher.len(), |i: int| crypt_byte(state_after(s, cipher.take(i)), cipher[i]))
}

/// The two steps of the second key undo each other, and so does combining a
/// byte twice with the same keystream byte.
#[verifier::rlimit(40)]
proof fn lemma_y_steps(y: u32, l: u8, p: u8, k: u8)
    by (bit_vector)
    ensures
        y.wrapping_add(l as u32).wrapping_mul(MultTab::MULT).wrapping_add(1).wrapping_sub(
            1,
        ).wrapping_mul(MultTab::MULTINV).wrapping_sub(l as u32) == y,
        y.wrapping_sub(1).wrapping_mul(MultTab::MULTINV).wrapping_sub(l as u32).wrapping_add(
            l as u32,
        ).wrapping_mul(MultTab::MULT).wrapping_add(1) == y,
        (p ^ k) ^ k == p,
{
}

/// A forward step followed by the backward step over the ciphertext byte that
/// the forward step produced restores the state.
pub proof fn lemma_update_back_update(s: KeyState, p: u8)
    ensures
        update_back_spec(update_spec(s, p), crypt_byte(s, p)) == s,
{
    let t = update_spec(s, p);
    lemma_crc32inv_crc32(s.z, msb_spec(t.y));
    lemma_y_steps(s.y, lsb_spec(t.x), p, keystream_byte(s.z));
    lemma_crc32inv_crc32(s.x, p);
}

/// A backward step over ciphertext byte `c` followed by the forward step over the
/// plaintext byte that `c` deciphers to restores the state.
pub proof fn lemma_update_update_back(s: KeyState, c: u8)
    ensures
        update_spec(update_back_spec(s, c), crypt_byte(update_back_spec(s, c), c)) == s,
{
    let t = update_back_spec(s, c);
    lemma_y_steps(s.y, lsb_spec(s.x), c, keystream_byte(t.z));
    lemma_crc32_crc32inv(s.x, c ^ keystream_byte(t.z));
    lemma_crc32_crc32inv(s.z, msb_spec(s.y));
}

/// Stepping backward over a ciphertext undoes deciphering it.
pub proof fn lemma_rewind_state_after(s: KeyState, cipher: Seq<u8>)
    ensures
        rewind(state_after(s, cipher), cipher) == s,
    decreases cipher.len(),
{
    if cipher.len() > 0 {
        let before = state_after(s, cipher.drop_last());
        let p = crypt_byte(before, cipher.last());
        lemma_y_steps(0, 0, cipher.last(), keystream_byte(before.z));
        lemma_update_back_update(before, p);
        lemma_rewind_state_after(s, cipher.drop_last());
    }
}

/// The state reached from `s` after enciphering the whole of `plain`.
pub open spec fn keys_after(s: KeyState, plain: Seq<u8>) -> KeyState
    decreases plain.len(),
{
    if plain.len() == 0 {
        s
    } else {
        update_spec(keys_after(s, plain.drop_last()), plain.last())
    }
}

/// The ciphertext that the cipher started in state `s` gives for `plain`.
pub open spec fn enciphered(s: KeyState, plain: Seq<u8>) -> Seq<u8> {
    Seq::new(plain.len(), |i: int| crypt_byte(keys_after(s, plain.take(i)), plain[i]))
}

/// Deciphering what the cipher has enciphered from the same keys gives back
/// the plaintext, and leaves the keys where enciphering left them.
pub proof fn lemma_deciphered_enciphered(s: KeyState, plain: Seq<u8>)
    ensures
        deciphered(s, enciphered(s, plain)) == plain,
        state_after(s, enciphered(s, plain)) == keys_after(s, plain),
    decreases plain.len(),
{
    let cipher = enciphered(s, plain);
    if plain.len() == 0 {
        assert(deciphered(s, cipher) =~= plain);
    } else {
        let n = plain.len() - 1;
        let shorter = plain.drop_last();
        lemma_deciphered_enciphered(s, shorter);
        assert(cipher.take(n) =~= enciphered(s, shorter)) by {
            assert forall|i: int| 0 <= i < n implies cipher[i] == enciphered(s, shorter)[i] by {
                assert(plain.take(i) =~= shorter.take(i));
            }
        }
        assert(cipher.drop_last() =~= cipher.take(n));
        assert(plain.take(n) =~= shorter);
        let before = keys_after(s, shorter);
        lemma_y_steps(0, 0, plain[n], keystream_byte(before.z));
        lemma_deciphered_next(s, cipher, n);
        assert(cipher.take(n + 1) =~= cipher);
        assert(deciphered(s, cipher) =~= plain);
    }
}

/// The keys of the cipher, with the tables that their updates need.
#[derive(Debug)]
pub struct Keys {
    x: u32,
    y: u32,
    z: u32,
    crc32tab: Crc32Tab,
    keystream: KeystreamTab,
}

impl View for Keys {
    type V = KeyState;

    closed spec fn view(&self) -> KeyState {
        KeyState { x: self.x, y: self.y, z: self.z }
    }
}

impl Clone for Keys {
    fn clone(&self) -> (keys: Keys)
        ensures
            keys@ == self@,
    {
        Keys {
            x: self.x,
            y: self.y,
            z: self.z,
            crc32tab: self.crc32tab.clone(),
            keystream: self.keystream.clone(),
        }
    }
}

impl Default for Keys {
    fn default() -> (keys: Keys)
        ensures
            keys@ == initial_state(),
    {
        Keys::new()
    }
}

impl Keys {
    /// The keys of a fresh session.
    pub fn new() -> (keys: Keys)
        ensures
            keys@ == initial_state(),
    {
        Keys {
            x: 0x1234_5678,
            y: 0x2345_6789,
            z: 0x3456_7890,
            crc32tab: Crc32Tab::new(),
            keystream: KeystreamTab::new(),
        }
    }

    /// Replaces the three keys.
    pub fn set_keys(&mut self, x: u32, y: u32, z: u32)
        ensures
            final(self)@ == (KeyState { x, y, z }),
    {
        self.x = x;
        self.y = y;
        self.z = z;
    }

    /// Updates the state with a plaintext byte.
    pub fn update(&mut self, p: u8)
        ensures
            final(self)@ == update_spec(old(self)@, p),
    {
        self.x = self.crc32tab.crc32(self.x, p);
        self.y = self.y.wrapping_add(lsb(self.x) as u32).wrapping_mul(MultTab::MULT).wrapping_add(
            1,
        );
        self.z = self.crc32tab.crc32(self.z, msb(self.y));
    }

    /// Updates the state backward with a ciphertext byte.
    pub fn update_backword(&mut self, c: u8)
        ensures
            final(self)@ == update_back_spec(old(self)@, c),
    {
        self.z = self.crc32tab.crc32inv(self.z, msb(self.y));
        self.y = self.y.wrapping_sub(1).wrapping_mul(MultTab::MULTINV).wrapping_sub(
            lsb(self.x) as u32,
        );
        self.x = self.crc32tab.crc32inv(self.x, c ^ self.keystream.get_byte(self.z));
    }

    /// The X value.
    #[inline]
    pub fn get_x(&self) -> (x: u32)
        ensures
            x == self@.x,
    {
        self.x
    }

    /// The Y value.
    #[inline]
    pub fn get_y(&self) -> (y: u32)
        ensures
            y == self@.y,
    {
        self.y
    }

    /// The Z value.
    #[inline]
    pub fn get_z(&self) -> (z: u32)
        ensures
            z == self@.z,
    {
        self.z
    }
}

/// The lower-case digit of a value below sixteen.
pub open spec fn hex_digit(d: u32) -> char {
    if d < 10 {
        (48 + d) as char
    } else {
        (87 + d) as char
    }
}

/// The eight lower-case hexadecimal digits of a word, most significant first.
pub open spec fn hex_word(w: u32) -> Seq<char> {
    Seq::new(8, |i: int| hex_digit((w >> ((28 - 4 * i) as u32)) & 0xf))
}

/// The three keys as hexadecimal words separated by single spaces.
pub open spec fn hex_words(s: KeyState) -> Seq<char> {
    hex_word(s.x) + seq![' '] + hex_word(s.y) + seq![' '] + hex_word(s.z)
}

/// Formats three words with `format!`, each as `{:08x}`, separated by spaces.
///
/// The outcome is taken to be what the standard formatter documents for
/// lower-case hexadecimal with zero padding to width eight.
#[verifier::external_body]
fn format_hex_words(x: u32, y: u32, z: u32) -> (text: String)
    ensures
        text@ == hex_words(KeyState { x, y, z }),
{
    format!("{:08x} {:08x} {:08x}", x, y, z)
}

impl Keys {
    /// The keys made of the first three of `words`, in the order X, Y, Z.
    pub fn from_words(words: &[u32]) -> (keys: Keys)
        requires
            words@.len() >= 3,
        ensures
            keys@ == (KeyState { x: words@[0], y: words@[1], z: words@[2] }),
    {
        let mut keys = Keys::new();
        keys.set_keys(words[0], words[1], words[2]);
        keys
    }

    /// The three keys as lower-case hexadecimal words of eight digits, separated by spaces.
    pub fn to_string(&self) -> (text: String)
        ensures
            text@ == hex_words(self@),
    {
        format_hex_words(self.x, self.y, self.z)
    }

    /// Deciphers `cipher_text` and advances the keys over it.
    pub fn decipher(&mut self, cipher_text: &[u8]) -> (plain: Vec<u8>)
        ensures
            plain@ == deciphered(old(self)@, cipher_text@),
            final(self)@ == state_after(old(self)@, cipher_text@),
    {
        let ghost start = self@;
        let mut plain: Vec<u8> = Vec::new();
        let mut i: usize = 0;
        while i < cipher_text.len()
            invariant
                i <= cipher_text@.len(),
                self@ == state_after(start, cipher_text@.take(i as int)),
                plain@ == deciphered(start, cipher_text@.take(i as int)),
            decreases cipher_text@.len() - i,
        {
            let p = cipher_text[i] ^ self.keystream.get_byte(self.z);
            proof {
                lemma_deciphered_next(start, cipher_text@, i as int);
            }
            self.update(p);
            plain.push(p);
            i += 1;
        }
        assert(cipher_text@.take(cipher_text@.len() as int) =~= cipher_text@);
        plain
    }
}

/// Deciphering one more byte appends one byte of plaintext and advances the state by it.
pub proof fn lemma_deciphered_next(s: KeyState, cipher: Seq<u8>, i: int)
    requires
        0 <= i < cipher.len(),
    ensures
        state_after(s, cipher.take(i + 1)) == update_spec(
            state_after(s, cipher.take(i)),
            crypt_byte(state_after(s, cipher.take(i)), cipher[i]),
        ),
        deciphered(s, cipher.take(i + 1)) == deciphered(s, cipher.take(i)).push(
            crypt_byte(state_after(s, cipher.take(i)), cipher[i]),
        ),
{
    let longer = cipher.take(i + 1);
    assert(longer.drop_last() =~= cipher.take(i));
    assert(longer.last() == cipher[i]);
    let a = deciphered(s, longer);
    let b = deciphered(s, cipher.take(i)).push(
        crypt_byte(state_after(s, cipher.take(i)), cipher[i]),
    );
    assert forall|j: int| 0 <= j < a.len() implies a[j] == b[j] by {
        assert(longer.take(j) =~= cipher.take(j));
        if j < i {
            assert(cipher.take(i).take(j) =~= cipher.take(j));
        } else {
            assert(longer.take(j) =~= cipher.take(i));
        }
    }
    assert(a =~= b);
}

} // verus!
