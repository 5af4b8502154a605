use vstd::prelude::*;

verus! {

/// Size of one UMEM chunk.
#[derive(Copy, Clone, Debug, PartialEq, Eq, Structural)]
pub enum ChunkAlignment {
    TwoK,
    FourK,
}

impl ChunkAlignment {
    /// Chunk size in bytes.
    pub open spec fn spec_bytes(self) -> usize {
        match self {
            ChunkAlignment::TwoK => 2048,
            ChunkAlignment::FourK => 4096,
        }
    }

    /// Chunk size in bytes.
    pub fn bytes(&self) -> (r: usize)
        ensures
            r == self.spec_bytes(),
    {
        match self {
            ChunkAlignment::TwoK => 2048,
            ChunkAlignment::FourK => 4096,
        }
    }
}

impl From<ChunkAlignment> for usize {
    fn from(value: ChunkAlignment) -> (r: usize) {
        value.bytes()
    }
}

impl vstd::std_specs::convert::FromSpecImpl<ChunkAlignment> for usize {
    open spec fn obeys_from_spec() -> bool {
        true
    }

    open spec fn from_spec(v: ChunkAlignment) -> usize {
        v.spec_bytes()
    }
}

/// Shape of the UMEM area: number of chunks and chunk size.
#[derive(Copy, Clone, Debug)]
pub struct UmemAreaConfig {
    pub entries: usize,
    pub alignment: ChunkAlignment,
}

} // verus!
