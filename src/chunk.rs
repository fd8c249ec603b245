//! How far the generation of a chunk of the world has come, and its one-byte
//! wire encoding.
use vstd::prelude::*;
use crate::codec::{DecodeError, Wire, holds_at};

verus! {

/// The generation stage of a chunk.
#[derive(Debug, Clone, Copy, PartialEq, Eq, Structural)]
pub enum Population {
    Uninit,
    TerrainRaw,
    TerrainPostProcess,
    TerrainWatered,
    Structures,
    Finished,
}

impl DeepView for Population {
    type V = Population;

    open spec fn deep_view(&self) -> Population {
        *self
    }
}

/// The byte that stands for a stage.
pub open spec fn population_byte(p: Population) -> u8 {
    match p {
        Population::Uninit => 0,
        Population::TerrainRaw => 1,
        Population::TerrainPostProcess => 2,
        Population::TerrainWatered => 3,
        Population::Structures => 4,
        Population::Finished => 5,
    }
}

/// A stage is one byte; a byte above 5 is no stage.
impl Wire for Population {
    open spec fn wire(v: Population) -> Seq<u8> {
        seq![population_byte(v)]
    }

    proof fn lemma_wire_nonempty(v: Population) {
    }

    proof fn lemma_wire_unique(b: Seq<u8>, pos: int, v1: Population, v2: Population) {
        assert(b.subrange(pos, pos + 1)[0] == population_byte(v1));
        assert(b.subrange(pos, pos + 1)[0] == population_byte(v2));
    }

    fn put(&self, out: &mut Vec<u8>) {
        let byte: u8 = match self {
            Population::Uninit => 0,
            Population::TerrainRaw => 1,
            Population::TerrainPostProcess => 2,
            Population::TerrainWatered => 3,
            Population::Structures => 4,
            Population::Finished => 5,
        };
        out.push(byte);
        assert(final(out)@ =~= old(out)@ + Self::wire(self.deep_view()));
    }

    fn get(b: &[u8], pos: usize) -> (r: Result<(Population, usize), DecodeError>) {
        if pos >= b.len() {
            return Err(DecodeError::UnexpectedEnd);
        }
        let byte = b[pos];
        assert(b@.subrange(pos as int, pos + 1) =~= seq![byte]);
        assert forall|v: Population| #[trigger] holds_at(b@, pos as int, Self::wire(v)) implies population_byte(v)
            == byte by {
            assert(b@.subrange(pos as int, pos + 1)[0] == population_byte(v));
        }
        let p = if byte == 0 {
            Population::Uninit
        } else if byte == 1 {
            Population::TerrainRaw
        } else if byte == 2 {
            Population::TerrainPostProcess
        } else if byte == 3 {
            Population::TerrainWatered
        } else if byte == 4 {
            Population::Structures
        } else if byte == 5 {
            Population::Finished
        } else {
            return Err(DecodeError::InvalidTag(byte as u16));
        };
        Ok((p, pos + 1))
    }
}

} // verus!
