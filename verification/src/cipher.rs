//! The light-weight stream cipher that MDict uses on key block indexes and blocks.
use vstd::prelude::*;

verus! {

/// Swaps the two nibbles of a byte.
pub open spec fn swap_nibbles(b: u8) -> u8 {
    (b >> 4u8) | (b << 4u8)
}

/// The plain byte at index `i` of the decryption of `enc` under `key`.
pub open spec fn decrypted_byte(enc: Seq<u8>, key: Seq<u8>, i: int) -> u8 {
    let prev: u8 = if i == 0 { 0x36u8 } else { enc[i - 1] };
    swap_nibbles(enc[i]) ^ prev ^ (i as u8) ^ key[i % (key.len() as int)]
}

/// The decryption of `enc` under `key`: each byte has its nibbles swapped and is
/// xor-ed with the previous cipher byte (0x36 before the first), its index modulo
/// 256 and the key byte at its index modulo the key length.
pub open spec fn fast_decrypted(enc: Seq<u8>, key: Seq<u8>) -> Seq<u8> {
    Seq::new(enc.len(), |i: int| decrypted_byte(enc, key, i))
}

/// The cipher byte at index `i` for the plain byte `p`, after the cipher byte
/// `prev` (0x36 before the first).
pub open spec fn encrypted_byte(p: u8, prev: u8, i: int, key: Seq<u8>) -> u8 {
    swap_nibbles(p ^ prev ^ (i as u8) ^ key[i % (key.len() as int)])
}

/// The MDict cipher applied to `plain` under `key`: each byte is xor-ed with the
/// previous cipher byte (0x36 before the first), its index modulo 256 and the key
/// byte at its index modulo the key length, then has its nibbles swapped.
pub open spec fn fast_encrypted(plain: Seq<u8>, key: Seq<u8>) -> Seq<u8>
    decreases plain.len(),
{
    if plain.len() == 0 {
        seq![]
    } else {
        let pre = fast_encrypted(plain.drop_last(), key);
        let i = plain.len() - 1;
        let prev: u8 = if i == 0 { 0x36u8 } else { pre[i - 1] };
        pre.push(encrypted_byte(plain[i], prev, i, key))
    }
}

proof fn lemma_fast_encrypted(plain: Seq<u8>, key: Seq<u8>)
    ensures
        fast_encrypted(plain, key).len() == plain.len(),
        forall|i: int|
            0 <= i < plain.len() ==> #[trigger] fast_encrypted(plain, key)[i] == encrypted_byte(
                plain[i],
                if i == 0 { 0x36u8 } else { fast_encrypted(plain, key)[i - 1] },
                i,
                key,
            ),
    decreases plain.len(),
{
    if plain.len() > 0 {
        let q = plain.drop_last();
        lemma_fast_encrypted(q, key);
        let e = fast_encrypted(plain, key);
        let pre = fast_encrypted(q, key);
        assert forall|i: int| 0 <= i < plain.len() implies #[trigger] e[i] == encrypted_byte(
            plain[i],
            if i == 0 { 0x36u8 } else { e[i - 1] },
            i,
            key,
        ) by {
            if i < plain.len() - 1 {
                assert(e[i] == pre[i]);
                assert(q[i] == plain[i]);
                if i > 0 {
                    assert(e[i - 1] == pre[i - 1]);
                }
            }
        }
    }
}

proof fn lemma_byte_round_trip(p: u8, prev: u8, idx: u8, k: u8)
    by (bit_vector)
    ensures
        swap_nibbles(swap_nibbles(p ^ prev ^ idx ^ k)) ^ prev ^ idx ^ k == p,
{
}

/// Decrypting what the cipher made of `plain` under `key` gives `plain` back.
pub proof fn law_decrypt_undoes_encrypt(plain: Seq<u8>, key: Seq<u8>)
    ensures
        fast_decrypted(fast_encrypted(plain, key), key) == plain,
{
    let e = fast_encrypted(plain, key);
    lemma_fast_encrypted(plain, key);
    assert forall|i: int| 0 <= i < plain.len() implies #[trigger] fast_decrypted(e, key)[i]
        == plain[i] by {
        let prev: u8 = if i == 0 { 0x36u8 } else { e[i - 1] };
        let k = key[i % (key.len() as int)];
        assert(e[i] == encrypted_byte(plain[i], prev, i, key));
        lemma_byte_round_trip(plain[i], prev, i as u8, k);
    }
    assert(fast_decrypted(e, key) =~= plain);
}

/// Decrypts `encrypted` with `key`.
pub fn fast_decrypt(encrypted: &[u8], key: &[u8]) -> (plain: Vec<u8>)
    requires
        key@.len() > 0 || encrypted@.len() == 0,
    ensures
        plain@ == fast_decrypted(encrypted@, key@),
{
    let mut buf: Vec<u8> = Vec::with_capacity(encrypted.len());
    let mut prev: u8 = 0x36;
    let mut i: usize = 0;
    while i < encrypted.len()
        invariant
            key@.len() > 0 || encrypted@.len() == 0,
            i <= encrypted@.len(),
            buf@.len() == i,
            prev == (if i == 0 { 0x36u8 } else { encrypted@[i - 1] }),
            forall|j: int| 0 <= j < i ==> buf@[j] == decrypted_byte(encrypted@, key@, j),
        decreases encrypted@.len() - i,
    {
        let b: u8 = encrypted[i];
        let t: u8 = (b >> 4u8) | (b << 4u8);
        let k: u8 = key[i % key.len()];
        let idx: u8 = i as u8;
        let plain_byte: u8 = t ^ prev ^ idx ^ k;
        buf.push(plain_byte);
        prev = b;
        i = i + 1;
    }
    assert(buf@ =~= fast_decrypted(encrypted@, key@));
    buf
}

} // verus!
