use vstd::prelude::*;
use crate::distance::{lemma_distance_is_weight, lemma_unique_codeword_in_reach};
use crate::ecc::{
    acceptable_repair, calculate_syndromes, correction_of, has_zero_syndromes, is_codeword,
    nearest_codeword, prefix, settle_correction, syndrome, syndromes_of, CorrectionResult,
};
use crate::error_words::{
    entries_at, error_places, lemma_forney, lemma_locator_below, lemma_places_count,
    lemma_roots_in_range, lemma_shortest_recurrence,
};
use crate::gf256::{alpha_pow, gf_add, gf_sum, lemma_xor};
use crate::locator::{
    berlekamp_massey, chien_search, forney_algorithm, generates, magnitudes_of, roots_of,
};
use crate::poly::{lemma_eval_sum, poly_sum};

verus! {

/// The word `received` with the magnitudes added to its entries at the first `k`
/// of the given places. A place is named by the power of `alpha` that it stands
/// for: the last entry of the word has the place 0.
pub open spec fn patched(received: Seq<u8>, places: Seq<int>, magnitudes: Seq<u8>, k: nat) -> Seq<
    u8,
>
    decreases k,
{
    if k == 0 {
        received
    } else {
        let at = received.len() - 1 - places[k - 1];
        patched(received, places, magnitudes, (k - 1) as nat).update(
            at,
            gf_sum(received[at], magnitudes[k - 1]),
        )
    }
}

/// Patching keeps the length, and changes an entry only at one of the places.
proof fn lemma_patched(received: Seq<u8>, places: Seq<int>, magnitudes: Seq<u8>, k: nat)
    requires
        k <= places.len(),
        places.len() == magnitudes.len(),
        forall|q: int| 0 <= q < places.len() ==> 0 <= #[trigger] places[q] < received.len(),
    ensures
        patched(received, places, magnitudes, k).len() == received.len(),
        forall|a: int|
            0 <= a < received.len() ==> (#[trigger] patched(received, places, magnitudes, k)[a]
                == received[a] || exists|q: int|
                0 <= q < k && places[q] == received.len() - 1 - a && patched(
                    received,
                    places,
                    magnitudes,
                    k,
                )[a] == gf_sum(received[a], magnitudes[q])),
        forall|q: int|
            0 <= q < k ==> exists|p: int|
                0 <= p < k && places[p] == places[q] && #[trigger] patched(
                    received,
                    places,
                    magnitudes,
                    k,
                )[received.len() - 1 - places[q]] == gf_sum(
                    received[received.len() - 1 - places[q]],
                    magnitudes[p],
                ),
    decreases k,
{
    if k > 0 {
        let short = (k - 1) as nat;
        lemma_patched(received, places, magnitudes, short);
        let before = patched(received, places, magnitudes, short);
        let after = patched(received, places, magnitudes, k);
        let at = received.len() - 1 - places[k - 1];
        assert forall|a: int| 0 <= a < received.len() implies (#[trigger] after[a] == received[a]
            || exists|q: int|
            0 <= q < k && places[q] == received.len() - 1 - a && after[a] == gf_sum(
                received[a],
                magnitudes[q],
            )) by {
            if a == at {
                assert(places[k - 1] == received.len() - 1 - a);
            } else if before[a] != received[a] {
                let q = choose|q: int|
                    0 <= q < short && places[q] == received.len() - 1 - a && before[a] == gf_sum(
                        received[a],
                        magnitudes[q],
                    );
                assert(0 <= q < k && places[q] == received.len() - 1 - a);
            }
        }
        assert forall|q: int| 0 <= q < k implies exists|p: int|
            0 <= p < k && places[p] == places[q] && #[trigger] after[received.len() - 1
                - places[q]] == gf_sum(received[received.len() - 1 - places[q]], magnitudes[p]) by {
            if places[q] == places[k - 1] {
                assert(places[k - 1] == places[q]);
            } else {
                let p = choose|p: int|
                    0 <= p < short && places[p] == places[q] && before[received.len() - 1
                        - places[q]] == gf_sum(
                        received[received.len() - 1 - places[q]],
                        magnitudes[p],
                    );
                assert(0 <= p < k && places[p] == places[q]);
            }
        }
    }
}

/// The difference between a received word and a codeword has the syndromes of the
/// received word.
proof fn lemma_error_syndromes(received: Seq<u8>, codeword: Seq<u8>, t: nat)
    requires
        received.len() == codeword.len(),
        is_codeword(codeword, t),
    ensures
        syndromes_of(poly_sum(received, codeword), t) == syndromes_of(received, t),
{
    let d = poly_sum(received, codeword);
    assert forall|i: int| 0 <= i < t implies syndromes_of(d, t)[i] == syndromes_of(received, t)[i] by {
        lemma_eval_sum(received, codeword, alpha_pow(i as nat));
        assert(syndrome(codeword, i as nat) == 0);
        lemma_xor(syndrome(received, i as nat), 0, 0);
    }
    assert(syndromes_of(d, t) =~= syndromes_of(received, t));
}

/// The steps of the decoder lead to the codeword: where a codeword lies within
/// half the number of parity codewords of the received word, a shortest recurrence
/// of the syndromes has as many roots as its length, and the received word patched
/// at these roots with the magnitudes that belong to them is that codeword.
pub proof fn lemma_decoder_finds(received: Seq<u8>, t: nat, codeword: Seq<u8>, locator: Seq<u8>)
    requires
        received.len() <= 255,
        acceptable_repair(received, t, codeword),
        generates(locator, syndromes_of(received, t)),
        forall|other: Seq<u8>| #[trigger]
            generates(other, syndromes_of(received, t)) ==> locator.len() <= other.len(),
    ensures
        2 * (locator.len() - 1) <= t,
        roots_of(locator, received.len()).len() == locator.len() - 1,
        patched(
            received,
            roots_of(locator, received.len()),
            magnitudes_of(syndromes_of(received, t), roots_of(locator, received.len())),
            (locator.len() - 1) as nat,
        ) == codeword,
{
    let n = received.len();
    let d = poly_sum(received, codeword);
    let s = syndromes_of(received, t);
    lemma_error_syndromes(received, codeword, t);
    lemma_distance_is_weight(received, codeword);
    lemma_shortest_recurrence(d, t, locator);
    lemma_places_count(d);
    lemma_forney(d, t);
    lemma_locator_below(d, n);
    let places = error_places(d);
    let entries = entries_at(d, places);
    let count = places.len();
    lemma_patched(received, places, entries, count);
    let repaired = patched(received, places, entries, count);
    assert forall|a: int| 0 <= a < n implies repaired[a] == codeword[a] by {
        lemma_xor(received[a], codeword[a], 0);
        lemma_xor(received[a], received[a], codeword[a]);
        lemma_xor(codeword[a], 0, 0);
        if d[a] != 0 {
            assert(d[n - 1 - (n - 1 - a)] != 0);
            assert(places.contains(n - 1 - a));
            let q = choose|q: int| 0 <= q < places.len() && places[q] == n - 1 - a;
            let p = choose|p: int|
                0 <= p < count && places[p] == places[q] && #[trigger] repaired[n - 1 - places[q]]
                    == gf_sum(received[n - 1 - places[q]], entries[p]);
            assert(entries[p] == d[n - 1 - places[p]]);
        } else if repaired[a] != received[a] {
            let q = choose|q: int|
                0 <= q < count && places[q] == n - 1 - a && repaired[a] == gf_sum(
                    received[a],
                    entries[q],
                );
            assert(entries[q] == d[n - 1 - places[q]]);
        }
    }
    assert(repaired =~= codeword);
}

/// The received word with each magnitude added at its place. A place is named by
/// the power of `alpha` that the codeword stands for: the last codeword of the
/// block has the place 0.
pub fn apply_corrections(received: &[u8], positions: &[usize], magnitudes: &[u8]) -> (word: Vec<u8>)
    requires
        positions.len() == magnitudes.len(),
        forall|q: int| 0 <= q < positions.len() ==> #[trigger] positions[q] < received.len(),
    ensures
        word@ == patched(
            received@,
            positions@.map_values(|p: usize| p as int),
            magnitudes@,
            positions.len() as nat,
        ),
{
    let ghost places = positions@.map_values(|p: usize| p as int);
    let mut word: Vec<u8> = prefix(received, received.len());
    assert(word@ =~= received@);
    let mut k: usize = 0;
    while k < positions.len()
        invariant
            k <= positions.len(),
            positions.len() == magnitudes.len(),
            forall|q: int| 0 <= q < positions.len() ==> #[trigger] positions[q] < received.len(),
            places == positions@.map_values(|p: usize| p as int),
            word.len() == received.len(),
            word@ == patched(received@, places, magnitudes@, k as nat),
        decreases positions.len() - k,
    {
        let place: usize = positions[k];
        assert(positions[k as int] < received.len());
        let at: usize = received.len() - 1 - place;
        assert(places[k as int] == place as int);
        word[at] = gf_add(received[at], magnitudes[k]);
        k = k + 1;
    }
    word
}

/// Decodes one received block of data codewords followed by `num_ecc_codewords`
/// parity codewords: syndromes, the Berlekamp-Massey algorithm for the locator, the
/// Chien search for the places of the errors, Forney's algorithm for their
/// magnitudes, and a last look at the syndromes of the repaired word. Whenever a
/// codeword lies within half the number of parity codewords of the block, that
/// codeword is found.
pub fn decode_block(received: &[u8], num_ecc_codewords: usize) -> (result: CorrectionResult)
    ensures
        result@ == correction_of(received@, num_ecc_codewords as nat),
{
    let n: usize = received.len();
    let ghost t = num_ecc_codewords as nat;
    if n <= num_ecc_codewords {
        return CorrectionResult::Uncorrectable;
    }
    if has_zero_syndromes(received, num_ecc_codewords) {
        return CorrectionResult::ErrorFree(prefix(received, n - num_ecc_codewords));
    }
    if n > 255 {
        return CorrectionResult::Uncorrectable;
    }
    let syndromes = calculate_syndromes(received, num_ecc_codewords);
    let locator = berlekamp_massey(syndromes.as_slice());
    proof {
        if exists|c: Seq<u8>| acceptable_repair(received@, t, c) {
            let c = choose|c: Seq<u8>| acceptable_repair(received@, t, c);
            lemma_decoder_finds(received@, t, c, locator@);
        }
    }
    let errors: usize = locator.len() - 1;
    if errors > num_ecc_codewords / 2 {
        return CorrectionResult::Uncorrectable;
    }
    let positions = chien_search(locator.as_slice(), n);
    let ghost places = positions@.map_values(|p: usize| p as int);
    if positions.len() != errors {
        return CorrectionResult::Uncorrectable;
    }
    proof {
        assert forall|q: int| 0 <= q < positions.len() implies #[trigger] positions[q] < n by {
            assert(places[q] == positions[q] as int);
            lemma_roots_in_range(locator@, n as nat, q);
        }
    }
    let magnitudes = forney_algorithm(syndromes.as_slice(), positions.as_slice());
    let candidate = apply_corrections(received, positions.as_slice(), magnitudes.as_slice());
    let result = settle_correction(received, num_ecc_codewords, Some(candidate));
    proof {
        if acceptable_repair(received@, t, candidate@) {
            let chosen = nearest_codeword(received@, t).unwrap();
            lemma_unique_codeword_in_reach(received@, t, candidate@, chosen);
        }
    }
    result
}

} // verus!
