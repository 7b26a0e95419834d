//! Encodings of query results.
use vstd::prelude::*;

verus! {

/// The part of a shape that a query hit.
#[derive(Clone, Copy, Debug, PartialEq, Eq, Structural)]
pub enum FeatureKind {
    Unknown,
    Vertex(u32),
    Edge(u32),
    Face(u32),
}

/// A feature as one word: its kind in the top nibble (0 unknown, 1 vertex,
/// 2 edge, 3 face) combined by bitwise or with its index.
pub fn feature_id_to_u32(feature: FeatureKind) -> (r: u32)
    ensures
        r == match feature {
            FeatureKind::Unknown => 0u32,
            FeatureKind::Vertex(id) => 0x1000_0000u32 | id,
            FeatureKind::Edge(id) => 0x2000_0000u32 | id,
            FeatureKind::Face(id) => 0x3000_0000u32 | id,
        },
{
    match feature {
        FeatureKind::Unknown => 0,
        FeatureKind::Vertex(id) => 0x1000_0000 | id,
        FeatureKind::Edge(id) => 0x2000_0000 | id,
        FeatureKind::Face(id) => 0x3000_0000 | id,
    }
}

/// An index below 2^28 and its kind can be read back from the word.
pub proof fn lemma_feature_id_decodes(feature: FeatureKind)
    requires
        match feature {
            FeatureKind::Unknown => true,
            FeatureKind::Vertex(id) => id < 0x1000_0000,
            FeatureKind::Edge(id) => id < 0x1000_0000,
            FeatureKind::Face(id) => id < 0x1000_0000,
        },
    ensures
        ({
            let w: u32 = match feature {
                FeatureKind::Unknown => 0u32,
                FeatureKind::Vertex(id) => 0x1000_0000u32 | id,
                FeatureKind::Edge(id) => 0x2000_0000u32 | id,
                FeatureKind::Face(id) => 0x3000_0000u32 | id,
            };
            &&& w >> 28u32 == match feature {
                FeatureKind::Unknown => 0u32,
                FeatureKind::Vertex(_) => 1u32,
                FeatureKind::Edge(_) => 2u32,
                FeatureKind::Face(_) => 3u32,
            }
            &&& w & 0x0FFF_FFFFu32 == match feature {
                FeatureKind::Unknown => 0u32,
                FeatureKind::Vertex(id) => id,
                FeatureKind::Edge(id) => id,
                FeatureKind::Face(id) => id,
            }
        }),
{
    match feature {
        FeatureKind::Unknown => {
            assert((0u32 >> 28u32) == 0u32 && (0u32 & 0x0FFF_FFFFu32) == 0u32) by (bit_vector);
        },
        FeatureKind::Vertex(id) => {
            assert(((0x1000_0000u32 | id) >> 28u32) == 1u32 && ((0x1000_0000u32 | id) & 0x0FFF_FFFFu32) == id) by (bit_vector)
                requires
                    id < 0x1000_0000u32,
            ;
        },
        FeatureKind::Edge(id) => {
            assert(((0x2000_0000u32 | id) >> 28u32) == 2u32 && ((0x2000_0000u32 | id) & 0x0FFF_FFFFu32) == id) by (bit_vector)
                requires
                    id < 0x1000_0000u32,
            ;
        },
        FeatureKind::Face(id) => {
            assert(((0x3000_0000u32 | id) >> 28u32) == 3u32 && ((0x3000_0000u32 | id) & 0x0FFF_FFFFu32) == id) by (bit_vector)
                requires
                    id < 0x1000_0000u32,
            ;
        },
    }
}

} // verus!
