use vstd::prelude::*;
use vstd::string::StringExecFns;
use crate::hasher::{gen_opcode, hash_of};

verus! {

/// Largest number of spaces appended to a seed before the search gives up.
pub const MAX_PROBES: usize = 100;

/// Why a generation run stopped without a result.
#[derive(Debug, Clone, Copy, PartialEq, Eq, Structural)]
pub enum AssignError {
    /// No free opcode was reached from a seed within the probe bound.
    OpcodeSpaceExhausted,
}

/// The seed string followed by `k` spaces.
pub open spec fn probe_seed(base: Seq<char>, k: nat) -> Seq<char> {
    base + Seq::new(k, |i: int| ' ')
}

/// The opcode proposed by the probe with `k` spaces.
pub open spec fn probe_opcode(base: Seq<char>, k: nat) -> u8 {
    hash_of(probe_seed(base, k))
}

/// The least probe number, from `k` up to the bound, whose opcode is not taken.
pub open spec fn first_free_from(base: Seq<char>, used: Seq<u8>, k: nat) -> Option<nat>
    decreases MAX_PROBES + 1 - k,
{
    if k > MAX_PROBES {
        None
    } else if !used.contains(probe_opcode(base, k)) {
        Some(k)
    } else {
        first_free_from(base, used, k + 1)
    }
}

/// The probe number at which resolution of `base` against `used` stops, if any.
pub open spec fn resolve_spec(base: Seq<char>, used: Seq<u8>) -> Option<nat> {
    first_free_from(base, used, 0)
}

/// Where the search succeeds, it stops at the first free probe within the bound;
/// it fails exactly when every probe up to the bound is taken.
pub proof fn lemma_first_free_from(base: Seq<char>, used: Seq<u8>, k: nat)
    requires
        k <= MAX_PROBES + 1,
    ensures
        first_free_from(base, used, k) matches Some(j) ==> {
            &&& k <= j <= MAX_PROBES
            &&& !used.contains(probe_opcode(base, j))
            &&& forall|i: nat| k <= i < j ==> used.contains(probe_opcode(base, i))
        },
        first_free_from(base, used, k) is None <==> forall|i: nat|
            k <= i <= MAX_PROBES ==> used.contains(#[trigger] probe_opcode(base, i)),
    decreases MAX_PROBES + 1 - k,
{
    if k <= MAX_PROBES {
        lemma_first_free_from(base, used, k + 1);
        if first_free_from(base, used, k) is None {
            assert forall|i: nat| k <= i <= MAX_PROBES implies used.contains(
                #[trigger] probe_opcode(base, i),
            ) by {
                if i > k {
                    assert(k + 1 <= i);
                }
            }
        }
    }
}

/// Characterisation of the collision resolver: the stopping probe is the first
/// free one, and failure means that all probes up to the bound are taken.
pub proof fn lemma_resolve_spec(base: Seq<char>, used: Seq<u8>)
    ensures
        resolve_spec(base, used) matches Some(k) ==> {
            &&& k <= MAX_PROBES
            &&& !used.contains(probe_opcode(base, k))
            &&& forall|i: nat| i < k ==> used.contains(probe_opcode(base, i))
        },
        resolve_spec(base, used) is None <==> forall|i: nat|
            i <= MAX_PROBES ==> used.contains(#[trigger] probe_opcode(base, i)),
{
    lemma_first_free_from(base, used, 0);
}

/// Whether `b` is among the opcodes already assigned.
pub fn opcode_taken(used: &Vec<u8>, b: u8) -> (r: bool)
    ensures
        r == used@.contains(b),
{
    let mut i: usize = 0;
    while i < used.len()
        invariant
            i <= used@.len(),
            forall|j: int| 0 <= j < i ==> used@[j] != b,
        decreases used@.len() - i,
    {
        if used[i] == b {
            assert(used@[i as int] == b);
            return true;
        }
        i += 1;
    }
    false
}

/// Finds a free opcode for `base`: hashes the seed, and while the value is taken
/// appends a space and hashes again. Returns the opcode with the seed that gave
/// it; `used` is left to the caller to extend.
pub fn resolve(base: &str, used: &Vec<u8>) -> (r: Result<(u8, String), AssignError>)
    ensures
        match resolve_spec(base@, used@) {
            Some(k) => r matches Ok((b, s)) && s@ == probe_seed(base@, k) && b == probe_opcode(
                base@,
                k,
            ),
            None => r == Err::<(u8, String), AssignError>(AssignError::OpcodeSpaceExhausted),
        },
{
    let mut seed = String::from_str(base);
    let mut k: usize = 0;
    proof {
        assert(seed@ == probe_seed(base@, 0));
    }
    loop
        invariant
            k <= MAX_PROBES,
            seed@ == probe_seed(base@, k as nat),
            first_free_from(base@, used@, 0) == first_free_from(base@, used@, k as nat),
        decreases MAX_PROBES - k,
    {
        let b = gen_opcode(seed.as_str());
        if !opcode_taken(used, b) {
            return Ok((b, seed));
        }
        if k == MAX_PROBES {
            assert(first_free_from(base@, used@, (k + 1) as nat) is None);
            return Err(AssignError::OpcodeSpaceExhausted);
        }
        seed.append(" ");
        proof {
            reveal_strlit(" ");
            assert(seed@ == probe_seed(base@, (k + 1) as nat));
        }
        k += 1;
    }
}

} // verus!
