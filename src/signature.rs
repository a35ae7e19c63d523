use vstd::prelude::*;

verus! {

pub const FNV_OFFSET: u64 = 0xcbf29ce484222325;

pub const FNV_PRIME: u64 = 0x100000001b3;

/// 64-bit FNV-1a digest of a byte sequence.
pub open spec fn fnv1a(bytes: Seq<u8>) -> u64
    decreases bytes.len(),
{
    if bytes.len() == 0 {
        FNV_OFFSET
    } else {
        (fnv1a(bytes.drop_last()) ^ (bytes.last() as u64)).wrapping_mul(FNV_PRIME)
    }
}

/// Identifies the contents of a MIDI file: its length and a digest of its bytes.
#[derive(Clone, Copy, Debug, PartialEq, Eq, Structural)]
pub struct MIDIFileUniqueSignature {
    pub byte_len: u64,
    pub digest: u64,
}

impl MIDIFileUniqueSignature {
    pub open spec fn spec_of_bytes(bytes: Seq<u8>) -> Self {
        MIDIFileUniqueSignature { byte_len: bytes.len() as u64, digest: fnv1a(bytes) }
    }

    /// The signature of a file's contents.
    pub fn of_bytes(bytes: &[u8]) -> (r: Self)
        ensures
            r == Self::spec_of_bytes(bytes@),
    {
        let mut h: u64 = FNV_OFFSET;
        let mut i: usize = 0;
        while i < bytes.len()
            invariant
                i <= bytes@.len(),
                h == fnv1a(bytes@.subrange(0, i as int)),
            decreases bytes@.len() - i,
        {
            proof {
                let p = bytes@.subrange(0, i as int + 1);
                assert(p.drop_last() == bytes@.subrange(0, i as int));
                assert(p.last() == bytes@[i as int]);
            }
            h = (h ^ (bytes[i] as u64)).wrapping_mul(FNV_PRIME);
            i = i + 1;
        }
        proof {
            assert(bytes@.subrange(0, bytes@.len() as int) == bytes@);
        }
        MIDIFileUniqueSignature { byte_len: bytes.len() as u64, digest: h }
    }
}

/// Identifies the visual content of a loaded file, so that a renderer can
/// tell whether what it cached still holds.
#[derive(Clone, Debug)]
pub struct CakeSignature {
    pub file_signature: MIDIFileUniqueSignature,
    pub note_count: u64,
    pub buffer_sizes: Vec<usize>,
}

impl CakeSignature {
    pub open spec fn same_as(&self, o: &CakeSignature) -> bool {
        &&& self.file_signature == o.file_signature
        &&& self.note_count == o.note_count
        &&& self.buffer_sizes@ == o.buffer_sizes@
    }
}

impl PartialEq for CakeSignature {
    fn eq(&self, o: &CakeSignature) -> (r: bool) {
        if self.file_signature != o.file_signature || self.note_count != o.note_count
            || self.buffer_sizes.len() != o.buffer_sizes.len() {
            return false;
        }
        let mut i: usize = 0;
        while i < self.buffer_sizes.len()
            invariant
                i <= self.buffer_sizes@.len(),
                self.buffer_sizes@.len() == o.buffer_sizes@.len(),
                forall|j: int| 0 <= j < i ==> self.buffer_sizes@[j] == o.buffer_sizes@[j],
            decreases self.buffer_sizes@.len() - i,
        {
            if self.buffer_sizes[i] != o.buffer_sizes[i] {
                return false;
            }
            i = i + 1;
        }
        proof {
            assert(self.buffer_sizes@ =~= o.buffer_sizes@);
        }
        true
    }
}

impl vstd::std_specs::cmp::PartialEqSpecImpl for CakeSignature {
    open spec fn obeys_eq_spec() -> bool {
        true
    }

    open spec fn eq_spec(&self, o: &CakeSignature) -> bool {
        self.same_as(o)
    }
}

} // verus!
