use vstd::prelude::*;
use vstd::string::StringSliceAdditionalSpecFns;
use crate::encoding::{data_bit_stream, valid_for_mode, EncodeError};
use crate::generator::{
    build_symbol, encode_stream, encoded_symbol, placed_stream, smallest_version, symbol,
};
use crate::matrix::grid;
use crate::penalty::{penalty, penalty_score};
use crate::types::{DataMode, ErrorCorrection, MaskPattern, Version};

verus! {

/// The penalty score of the symbol that carries `stream` under the mask of the given
/// index.
pub open spec fn candidate_cost(
    version: Version,
    ec: ErrorCorrection,
    stream: Seq<u8>,
    index: int,
) -> int {
    penalty(symbol(version, ec, MaskPattern::of_index(index), false, stream))
}

/// The index of the first among the masks of index below `k` whose symbol has the
/// least penalty score of them.
pub open spec fn best_index(version: Version, ec: ErrorCorrection, stream: Seq<u8>, k: int) -> int
    decreases k,
{
    if k <= 1 {
        0
    } else {
        let best = best_index(version, ec, stream, k - 1);
        if candidate_cost(version, ec, stream, k - 1) < candidate_cost(version, ec, stream, best) {
            k - 1
        } else {
            best
        }
    }
}

/// The mask that is chosen for a stream: the first of the eight whose symbol has the
/// least penalty score.
pub open spec fn best_mask(version: Version, ec: ErrorCorrection, stream: Seq<u8>) -> MaskPattern {
    MaskPattern::of_index(best_index(version, ec, stream, 8))
}

/// The mask that is chosen for a text.
pub open spec fn chosen_mask(text: Seq<u8>, ec: ErrorCorrection, mode: DataMode) -> MaskPattern {
    let version = smallest_version(ec, mode, text.len() as int).unwrap();
    let v = version.number();
    best_mask(version, ec, placed_stream(v, ec, data_bit_stream(v, ec, mode, text)))
}

/// Among the first `k` masks none scores lower than the best, and none before it
/// scores as low.
pub proof fn lemma_best_index(version: Version, ec: ErrorCorrection, stream: Seq<u8>, k: int)
    requires
        1 <= k,
    ensures
        0 <= best_index(version, ec, stream, k) < k,
        forall|i: int|
            0 <= i < k ==> candidate_cost(version, ec, stream, best_index(version, ec, stream, k))
                <= #[trigger] candidate_cost(version, ec, stream, i),
        forall|i: int|
            0 <= i < best_index(version, ec, stream, k) ==> candidate_cost(
                version,
                ec,
                stream,
                best_index(version, ec, stream, k),
            ) < #[trigger] candidate_cost(version, ec, stream, i),
    decreases k,
{
    if k > 1 {
        lemma_best_index(version, ec, stream, k - 1);
    }
}

/// No mask gives a symbol of lower penalty score than the chosen one, and no mask
/// of lower index gives one as low.
pub proof fn lemma_best_mask(
    version: Version,
    ec: ErrorCorrection,
    stream: Seq<u8>,
    other: MaskPattern,
)
    ensures
        penalty(symbol(version, ec, best_mask(version, ec, stream), false, stream)) <= penalty(
            symbol(version, ec, other, false, stream),
        ),
        other.index() < best_mask(version, ec, stream).index() ==> penalty(
            symbol(version, ec, best_mask(version, ec, stream), false, stream),
        ) < penalty(symbol(version, ec, other, false, stream)),
{
    lemma_best_index(version, ec, stream, 8);
    let best = best_index(version, ec, stream, 8);
    assert(MaskPattern::of_index(best).index() == best);
    assert(MaskPattern::of_index(other.index()) == other);
    assert(candidate_cost(version, ec, stream, best) <= candidate_cost(
        version,
        ec,
        stream,
        other.index(),
    ));
}

/// Chooses the mask for a stream: the first of the eight whose symbol has the least
/// penalty score.
pub fn select_mask(stream: &[u8], version: Version, error_correction: ErrorCorrection) -> (mask:
    MaskPattern)
    ensures
        mask == best_mask(version, error_correction, stream@),
{
    let first = build_symbol(stream, version, error_correction, MaskPattern::Pattern0, false);
    let mut best: MaskPattern = MaskPattern::Pattern0;
    let mut least: u32 = penalty_score(&first);
    let mut index: u8 = 1;
    while index < 8
        invariant
            1 <= index <= 8,
            best.index() == best_index(version, error_correction, stream@, index as int),
            least == candidate_cost(version, error_correction, stream@, best.index()),
        decreases 8 - index,
    {
        let mask = match MaskPattern::from_u8(index) {
            Some(mask) => mask,
            None => MaskPattern::Pattern0,
        };
        let candidate = build_symbol(stream, version, error_correction, mask, false);
        let score: u32 = penalty_score(&candidate);
        assert(MaskPattern::of_index(best.index()) == best);
        if score < least {
            best = mask;
            least = score;
        }
        index = index + 1;
    }
    assert(MaskPattern::of_index(best.index()) == best);
    best
}

/// Encodes a text into a symbol of the smallest version that holds it, under the
/// mask that gives the symbol the least penalty score, and says which mask that is.
pub fn generate_with_best_mask(
    data: &str,
    error_correction: ErrorCorrection,
    mode: DataMode,
) -> (result: Result<(Vec<Vec<u8>>, MaskPattern), EncodeError>)
    ensures
        match result {
            Ok((matrix, mask)) => {
                &&& valid_for_mode(mode, data.spec_bytes())
                &&& smallest_version(error_correction, mode, data.spec_bytes().len() as int) is Some
                &&& mask == chosen_mask(data.spec_bytes(), error_correction, mode)
                &&& grid(&matrix) == encoded_symbol(
                    data.spec_bytes(),
                    error_correction,
                    mode,
                    mask,
                    false,
                )
            },
            Err(EncodeError::InvalidCharacter) => !valid_for_mode(mode, data.spec_bytes()),
            Err(EncodeError::CapacityExceeded) => valid_for_mode(mode, data.spec_bytes())
                && smallest_version(error_correction, mode, data.spec_bytes().len() as int) is None,
        },
{
    match encode_stream(data, error_correction, mode) {
        Ok((version, stream)) => {
            let mask = select_mask(stream.as_slice(), version, error_correction);
            let matrix = build_symbol(stream.as_slice(), version, error_correction, mask, false);
            Ok((matrix, mask))
        },
        Err(error) => Err(error),
    }
}

} // verus!
