//! The search for the keys over all candidates, and deciphering with the keys found.

use vstd::prelude::*;
use std::io::Write;
use flate2::write::DeflateDecoder;
use crate::attack::Attack;
use crate::search::{z_first, lemma_z_first_finds};
use crate::workspace::{Lists, Known, blank, z_reachable, seeded};
use crate::data::Data;
use crate::keys::{Keys, KeyState, rewind, deciphered, state_after};
use crate::sieve::{sieve, lemma_sieve_prefix, lemma_sieve_contains};
use crate::truth::{is_genuine, run_of, lemma_genuine_run, lemma_run_gives_candidate,
    lemma_run_is_accepted, lemma_mask_twice};
use crate::utils::MASK_2_32;
use crate::zreduction::{Zreduction, candidates, generated, reduced_index, holds_candidates,
    lemma_candidates_hold, lemma_generated_holds, lemma_reduced_index_bounds};

verus! {

/// What the attack reads of `data` when its window starts at `index`.
pub open spec fn window(data: &Data, index: int) -> Known {
    Known { keystream: data.keystream@, plaintext: data.plain_text@, index }
}

/// The first completion that the attack accepts on a blank workspace with `z`
/// as `Z11[2,32)`, if it accepts any.
pub open spec fn attack_first(known: Known, z: u32) -> Option<Lists> {
    z_first(seeded(blank(), z), known, 11)
}

/// Whether the attack accepts some completion for the candidate `z`.
pub open spec fn hit(known: Known, z: u32) -> bool {
    attack_first(known, z) is Some
}

/// The keys at the start of the ciphertext that follow from the keys that
/// the workspace `f` holds for position 7 of the window at `index`.
pub open spec fn start_keys(data: &Data, index: int, f: Lists) -> KeyState {
    rewind(
        KeyState { x: f.x[7], y: f.y[7], z: f.z[7] },
        data.cipher_text@.take(data.start() + index + 7),
    )
}

/// The keys at the start of the ciphertext that the attack recovers from the
/// candidate `z`, where it accepts a completion.
pub open spec fn recovered(data: &Data, index: int, z: u32) -> KeyState {
    start_keys(data, index, attack_first(window(data, index), z)->0)
}

/// The attack accepts a candidate exactly when some completion of a blank
/// workspace seeded with it passes every filter.
pub proof fn lemma_hit_means_accepted(known: Known, z: u32)
    ensures
        hit(known, z) <==> exists|f: Lists| z_reachable(seeded(blank(), z), f, known, 11),
        hit(known, z) ==> z_reachable(seeded(blank(), z), attack_first(known, z)->0, known, 11),
{
    lemma_z_first_finds(seeded(blank(), z), known, 11);
}

/// The family of the positions in a list, numbered by themselves.
pub open spec fn position_at() -> spec_fn(int) -> int {
    |n: int| n
}

/// Whether the attack accepts the candidate at a position of `values`.
pub open spec fn hit_keep(known: Known, values: Seq<u32>) -> spec_fn(int) -> bool {
    |n: int| hit(known, values[n])
}

/// The positions in `values`, ascending, of the candidates that the attack accepts.
pub open spec fn hits(known: Known, values: Seq<u32>, n: nat) -> Seq<int> {
    sieve(n, position_at(), hit_keep(known, values))
}

/// The position of the keystream at which the search attacks: the one that the
/// reduction chooses, or the last one where the keystream is too short to reduce.
pub open spec fn attacked_index(keystream: Seq<u8>) -> int {
    if keystream.len() > Attack::SIZE {
        reduced_index(keystream)
    } else {
        keystream.len() - 1
    }
}

/// The candidates that the search tries, in order.
pub open spec fn attacked_values(keystream: Seq<u8>) -> Seq<u32> {
    if attacked_index(keystream) < keystream.len() - 1 {
        candidates(keystream, attacked_index(keystream))
    } else {
        generated(keystream.last())
    }
}

/// Attacks one candidate for `Z11[2,32)` on a blank workspace.
///
/// Returns the keys at the start of the ciphertext that follow from the
/// first accepted completion, and nothing where no completion is accepted.
pub fn try_candidate(attack: &mut Attack, z: u32) -> (keys: Option<Keys>)
    requires
        old(attack).wf(),
    ensures
        final(attack).wf(),
        final(attack).data == old(attack).data,
        final(attack).index == old(attack).index,
        keys is Some == hit(window(old(attack).data, old(attack).index as int), z),
        keys matches Some(keys) ==> keys@ == recovered(
            old(attack).data,
            old(attack).index as int,
            z,
        ),
{
    let ghost known = window(attack.data, attack.index as int);
    attack.z_list = [0;12];
    attack.y_list = [0;12];
    attack.x_list = [0;12];
    proof {
        assert(attack.lists().z =~= blank().z);
        assert(attack.lists().y =~= blank().y);
        assert(attack.lists().x =~= blank().x);
        assert(attack.lists() == blank());
        assert(attack.known() == known);
    }
    if attack.carry_out(z) {
        Some(attack.get_keys())
    } else {
        None
    }
}

/// What one more candidate adds to the positions of the accepted ones.
proof fn lemma_hits_next(known: Known, values: Seq<u32>, n: nat)
    ensures
        hits(known, values, n + 1) == if hit(known, values[n as int]) {
            hits(known, values, n).push(n as int)
        } else {
            hits(known, values, n)
        },
{
}

/// The positions found among the first candidates stay where they are among all.
proof fn lemma_hits_prefix(known: Known, values: Seq<u32>, n: nat, m: nat)
    requires
        n <= m,
    ensures
        hits(known, values, n).len() <= hits(known, values, m).len(),
        forall|j: int|
            0 <= j < hits(known, values, n).len() ==> #[trigger] hits(known, values, m)[j] == hits(
                known,
                values,
                n,
            )[j],
{
    lemma_sieve_prefix(n, m, position_at(), hit_keep(known, values));
}

/// Searches the candidates left by the reduction for keys.
///
/// Every candidate is attacked on a blank workspace, in the order in which
/// the reduction holds them. With `exhaustive`, the keys of every accepted
/// candidate are returned, in that order; without it, the search ends at the
/// first accepted candidate and returns its keys alone. The keys of a
/// candidate are those that follow from the first completion accepted for it.
///
/// Where the ciphertext, deciphered with some keys, holds the plaintext at its
/// place, keys are returned.
pub fn find_keys(data: &Data, exhaustive: bool) -> (found: Vec<Keys>)
    requires
        data.wf(),
    ensures
        (exists|start: KeyState| is_genuine(data, start)) ==> found@.len() > 0,
        ({
            let keystream = data.keystream@;
            let index = attacked_index(keystream) + 1 - Attack::SIZE;
            let values = attacked_values(keystream);
            let all = hits(window(data, index), values, values.len());
            &&& exhaustive ==> found@.len() == all.len()
            &&& !exhaustive ==> found@.len() == if all.len() > 0 { 1int } else { 0int }
            &&& forall|j: int|
                0 <= j < found@.len() ==> (#[trigger] found@[j])@ == recovered(
                    data,
                    index,
                    values[all[j]],
                )
        }),
{
    // generate and reduce Zi[2,32) values
    let mut zr = Zreduction::new(data.keystream.as_slice());
    zr.generate();
    if data.keystream.len() > Attack::SIZE {
        zr.reduce();
    }
    let ghost keystream = data.keystream@;
    let index = zr.get_index() + 1 - Attack::SIZE;
    let ghost known = window(data, index as int);
    let ghost values = attacked_values(keystream);
    assert(zr.values() == values);
    assert(index == attacked_index(keystream) + 1 - Attack::SIZE);

    // iterate over remaining Zi[2,32) values
    let mut attack = Attack::new(data, index);
    let mut found: Vec<Keys> = Vec::new();
    let size = zr.size();
    let mut n: usize = 0;
    let mut done = false;
    while n < size && !done
        invariant
            n <= size,
            size == values.len(),
            zr.values() == values,
            attack.wf(),
            attack.data == data,
            attack.index == index,
            known == window(data, index as int),
            !done ==> found@.len() == hits(known, values, n as nat).len(),
            !done && !exhaustive ==> found@.len() == 0,
            done ==> !exhaustive && found@.len() == 1 && hits(known, values, n as nat).len() > 0,
            forall|j: int|
                0 <= j < found@.len() ==> (#[trigger] found@[j])@ == recovered(
                    data,
                    index as int,
                    values[hits(known, values, n as nat)[j]],
                ),
        decreases size - n + (if done { 0int } else { 1int }),
    {
        let z = zr.get_zi_2_32_vector()[n];
        let ghost before = found@;
        proof {
            lemma_hits_next(known, values, n as nat);
            lemma_hits_prefix(known, values, n as nat, (n + 1) as nat);
        }
        match try_candidate(&mut attack, z) {
            Some(keys) => {
                found.push(keys);
                if !exhaustive {
                    done = true;
                }
            },
            None => {},
        }
        n += 1;
        proof {
            assert forall|j: int| 0 <= j < found@.len() implies (#[trigger] found@[j])@
                == recovered(data, index as int, values[hits(known, values, n as nat)[j]]) by {
                if j < before.len() {
                    assert(found@[j] == before[j]);
                }
            }
        }
    }
    proof {
        lemma_hits_prefix(known, values, n as nat, size as nat);
        if exists|start: KeyState| is_genuine(data, start) {
            let start = choose|start: KeyState| is_genuine(data, start);
            lemma_genuine_text_is_solved(data, start);
        }
    }
    found
}

/// Why a deciphered payload could not be handed out.
#[derive(Clone, Copy, Debug, PartialEq, Eq, Structural)]
pub enum DecipherError {
    /// The decoder refuses the payload as a Deflate stream.
    CorruptStream,
}

/// What `flate2` makes of `data` written to a decoder of raw Deflate
/// streams: the bytes that the decoder gives out, or nothing where it refuses
/// the data.
pub uninterp spec fn inflated(data: Seq<u8>) -> Option<Seq<u8>>;

/// Writes `data` to `flate2`'s `DeflateDecoder` over an empty vector, by
/// `write_all`, and lets the decoder finish as it is dropped.
///
/// The outcome is named, not described: it is `inflated` of the bytes. `None`
/// stands for an error of `write_all`, with which the decoder refuses the bytes.
#[verifier::external_body]
fn inflate(data: &[u8]) -> (out: Option<Vec<u8>>)
    ensures
        match out {
            Some(bytes) => inflated(data@) == Some(bytes@),
            None => inflated(data@) is None,
        },
{
    let mut bytes = Vec::new();
    let written = {
        let mut decoder = DeflateDecoder::new(&mut bytes);
        decoder.write_all(data)
    };
    match written {
        Ok(()) => Some(bytes),
        Err(_) => None,
    }
}

/// The payload that follows the encryption header in the deciphered text.
pub open spec fn payload(s: KeyState, cipher: Seq<u8>) -> Seq<u8> {
    deciphered(s, cipher).skip(Data::HEADER_SIZE as int)
}

/// Deciphers a whole entry with `keys`, drops the encryption header, and with
/// `unzip` inflates what is left.
pub fn decipher(keys: &mut Keys, cipher_text: &[u8], unzip: bool) -> (result: Result<
    Vec<u8>,
    DecipherError,
>)
    requires
        cipher_text@.len() >= Data::HEADER_SIZE,
    ensures
        final(keys)@ == state_after(old(keys)@, cipher_text@),
        match result {
            Ok(bytes) => if unzip {
                inflated(payload(old(keys)@, cipher_text@)) == Some(bytes@)
            } else {
                bytes@ == payload(old(keys)@, cipher_text@)
            },
            Err(e) => unzip && inflated(payload(old(keys)@, cipher_text@)) is None,
        },
{
    let mut decrypted_text = keys.decipher(cipher_text);
    let stored = decrypted_text.split_off(Data::HEADER_SIZE);
    assert(stored@ =~= payload(old(keys)@, cipher_text@));
    if unzip {
        match inflate(stored.as_slice()) {
            Some(bytes) => Ok(bytes),
            None => Err(DecipherError::CorruptStream),
        }
    } else {
        Ok(stored)
    }
}

/// The candidates that the search tries hold each candidate of the position
/// that it attacks once.
pub proof fn lemma_attacked_values_hold(keystream: Seq<u8>)
    requires
        Attack::SIZE <= keystream.len() <= usize::MAX,
    ensures
        Attack::SIZE <= attacked_index(keystream) + 1 <= keystream.len(),
        holds_candidates(attacked_values(keystream), keystream, attacked_index(keystream)),
{
    if keystream.len() > Attack::SIZE {
        lemma_reduced_index_bounds(keystream);
    }
    if attacked_index(keystream) < keystream.len() - 1 {
        lemma_candidates_hold(keystream, attacked_index(keystream));
    } else {
        lemma_generated_holds(keystream);
    }
}

/// The search does not miss the keys of a genuine text: where the ciphertext,
/// deciphered with some keys, holds the plaintext at its place, the attack
/// accepts one of the candidates at least, and `find_keys` returns keys.
pub proof fn lemma_genuine_text_is_solved(data: &Data, start: KeyState)
    requires
        data.wf(),
        is_genuine(data, start),
    ensures
        ({
            let keystream = data.keystream@;
            let index = attacked_index(keystream) + 1 - Attack::SIZE;
            let values = attacked_values(keystream);
            hits(window(data, index), values, values.len()).len() > 0
        }),
{
    let keystream = data.keystream@;
    let at = attacked_index(keystream);
    let index = at + 1 - Attack::SIZE;
    let values = attacked_values(keystream);
    let known = window(data, index);
    let st = run_of(data, start);
    lemma_genuine_run(data, start);
    assert(data.keystream.len() == keystream.len());
    lemma_attacked_values_hold(keystream);
    lemma_run_gives_candidate(st, keystream, data.plain_text@, at);
    let right = st[at].z & MASK_2_32;
    assert(values.contains(right));
    let n = choose|n: int| 0 <= n < values.len() && values[n] == right;
    lemma_mask_twice(st[at].z);
    lemma_run_is_accepted(blank(), st, known, right);
    assert(hit(known, values[n]));
    lemma_sieve_contains(values.len(), position_at(), hit_keep(known, values), n);
}

} // verus!
