use vstd::prelude::*;

verus! {

/// Byte contributed by one character: its code point modulo 256.
pub open spec fn char_byte(c: char) -> u8 {
    ((c as u32) % 256) as u8
}

/// The opcode fingerprint of a string: a left fold of the characters' bytes with
/// addition modulo 256, starting from zero.
pub open spec fn hash_of(s: Seq<char>) -> u8
    decreases s.len(),
{
    if s.len() == 0 {
        0
    } else {
        ((hash_of(s.drop_last()) as int + char_byte(s.last()) as int) % 256) as u8
    }
}

/// Computes the opcode fingerprint of `s`.
pub fn gen_opcode(s: &str) -> (r: u8)
    ensures
        r == hash_of(s@),
{
    let mut res: u8 = 0;
    for chr in it: s.chars()
        invariant
            it.seq() == s@,
            res == hash_of(s@.take(it.index() as int)),
    {
        proof {
            assert(s@.take(it.index() + 1).drop_last() == s@.take(it.index() as int));
        }
        let b: u8 = ((chr as u32) % 256) as u8;
        res = ((res as u16 + b as u16) % 256) as u8;
    }
    proof {
        assert(s@.take(s@.len() as int) == s@);
    }
    res
}

/// Appending a space adds 32 to the fingerprint, modulo 256.
pub proof fn lemma_hash_push_space(s: Seq<char>)
    ensures
        hash_of(s.push(' ')) as int == (hash_of(s) as int + 32) % 256,
{
    assert(s.push(' ').drop_last() == s);
}

} // verus!
