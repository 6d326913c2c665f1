//! Per-vertex displacement weights and the spectral energy that drives the
//! rotation.
//!
//! A list of band mappings assigns spectrum bands to ranges of vertices: each
//! band is resampled onto its range, later mappings overwriting earlier ones,
//! and vertices that no mapping covers get weight zero.
use crate::mesh::Sphere;
use crate::resample::{resample, resampled, lemma_resampled_within_range, max_of, min_of};
use vstd::prelude::*;

verus! {

/// The spectrum bins `source_start..source_end` drive the vertices
/// `dest_start..dest_end`.
#[derive(Clone, Copy, Debug, PartialEq, Eq)]
pub struct BandMapping {
    pub source_start: usize,
    pub source_end: usize,
    pub dest_start: usize,
    pub dest_end: usize,
}

/// `mapping` reads inside a spectrum of `spectrum_len` bins and writes inside
/// `vertex_count` weights, from a non-empty band unless its range is empty.
pub open spec fn mapping_fits(mapping: BandMapping, spectrum_len: int, vertex_count: int) -> bool {
    &&& mapping.source_start <= mapping.source_end <= spectrum_len
    &&& mapping.dest_start <= mapping.dest_end <= vertex_count
    &&& (mapping.source_start < mapping.source_end || mapping.dest_start == mapping.dest_end)
}

pub open spec fn mappings_fit(mappings: Seq<BandMapping>, spectrum_len: int, vertex_count: int) -> bool {
    forall|k: int|
        0 <= k < mappings.len() ==> mapping_fits(#[trigger] mappings[k], spectrum_len, vertex_count)
}

/// The weights that `mapping` writes: its band resampled to its range.
pub open spec fn band_weights(spectrum: Seq<u32>, mapping: BandMapping) -> Seq<u32> {
    resampled(
        spectrum.subrange(mapping.source_start as int, mapping.source_end as int),
        (mapping.dest_end - mapping.dest_start) as nat,
    )
}

/// Weights of `vertex_count` vertices after applying `mappings` in order to
/// all-zero weights.
pub open spec fn mapped_weights(
    spectrum: Seq<u32>,
    mappings: Seq<BandMapping>,
    vertex_count: nat,
) -> Seq<u32>
    decreases mappings.len(),
{
    if mappings.len() == 0 {
        Seq::new(vertex_count, |i: int| 0u32)
    } else {
        let w = mapped_weights(spectrum, mappings.drop_last(), vertex_count);
        let mapping = mappings.last();
        w.take(mapping.dest_start as int) + band_weights(spectrum, mapping) + w.skip(
            mapping.dest_end as int,
        )
    }
}

proof fn lemma_mapped_weights_len(spectrum: Seq<u32>, mappings: Seq<BandMapping>, vertex_count: nat)
    requires
        mappings_fit(mappings, spectrum.len() as int, vertex_count as int),
    ensures
        mapped_weights(spectrum, mappings, vertex_count).len() == vertex_count,
    decreases mappings.len(),
{
    if mappings.len() > 0 {
        let rest = mappings.drop_last();
        assert(mappings_fit(rest, spectrum.len() as int, vertex_count as int)) by {
            assert forall|k: int| 0 <= k < rest.len() implies mapping_fits(
                #[trigger] rest[k],
                spectrum.len() as int,
                vertex_count as int,
            ) by {
                assert(rest[k] == mappings[k]);
            }
        }
        lemma_mapped_weights_len(spectrum, rest, vertex_count);
        assert(mapping_fits(mappings[mappings.len() - 1], spectrum.len() as int, vertex_count as int));
    }
}

/// Displacement weights of `vertex_count` vertices: each mapping's band of
/// `spectrum` resampled onto its vertex range, in order; zero elsewhere.
pub fn displacement_weights(spectrum: &[u32], mappings: &[BandMapping], vertex_count: usize) -> (weights: Vec<u32>)
    requires
        mappings_fit(mappings@, spectrum@.len() as int, vertex_count as int),
    ensures
        weights@ == mapped_weights(spectrum@, mappings@, vertex_count as nat),
{
    let mut weights: Vec<u32> = Vec::new();
    let mut i: usize = 0;
    while i < vertex_count
        invariant
            i <= vertex_count,
            weights@ =~= Seq::new(i as nat, |k: int| 0u32),
        decreases vertex_count - i,
    {
        weights.push(0);
        i = i + 1;
    }
    assert(mappings@.take(0) =~= Seq::<BandMapping>::empty());
    let mut k: usize = 0;
    while k < mappings.len()
        invariant
            k <= mappings@.len(),
            mappings_fit(mappings@, spectrum@.len() as int, vertex_count as int),
            weights@ == mapped_weights(spectrum@, mappings@.take(k as int), vertex_count as nat),
            weights@.len() == vertex_count,
        decreases mappings@.len() - k,
    {
        let mapping = mappings[k];
        assert(mapping_fits(mappings@[k as int], spectrum@.len() as int, vertex_count as int));
        let ghost before = weights@;
        let band = &spectrum[mapping.source_start..mapping.source_end];
        assert(band@ =~= spectrum@.subrange(mapping.source_start as int, mapping.source_end as int));
        let width = mapping.dest_end - mapping.dest_start;
        match resample(band, width) {
            Ok(values) => {
                let mut j: usize = 0;
                while j < width
                    invariant
                        j <= width,
                        width == mapping.dest_end - mapping.dest_start,
                        mapping.dest_end <= vertex_count,
                        values@.len() == width,
                        before.len() == vertex_count,
                        weights@ =~= before.take(mapping.dest_start as int) + values@.take(j as int)
                            + before.skip(mapping.dest_start + j),
                    decreases width - j,
                {
                    weights[mapping.dest_start + j] = values[j];
                    j = j + 1;
                    assert(weights@ =~= before.take(mapping.dest_start as int) + values@.take(
                        j as int,
                    ) + before.skip(mapping.dest_start + j));
                }
                assert(values@.take(j as int) =~= values@);
            },
            Err(_) => {
                assert(before.take(mapping.dest_start as int) + band_weights(spectrum@, mapping)
                    + before.skip(mapping.dest_end as int) =~= before);
            },
        }
        assert(mappings@.take(k + 1).drop_last() =~= mappings@.take(k as int));
        k = k + 1;
    }
    assert(mappings@.take(k as int) =~= mappings@);
    weights
}

/// A silent spectrum moves no vertex: whatever the mappings, every weight is
/// zero.
pub proof fn lemma_silence_gives_zero_weights(
    spectrum: Seq<u32>,
    mappings: Seq<BandMapping>,
    vertex_count: nat,
)
    requires
        mappings_fit(mappings, spectrum.len() as int, vertex_count as int),
        forall|i: int| 0 <= i < spectrum.len() ==> spectrum[i] == 0,
    ensures
        forall|i: int|
            0 <= i < vertex_count ==> #[trigger] mapped_weights(spectrum, mappings, vertex_count)[i]
                == 0,
    decreases mappings.len(),
{
    lemma_mapped_weights_len(spectrum, mappings, vertex_count);
    if mappings.len() > 0 {
        let rest = mappings.drop_last();
        assert(mappings_fit(rest, spectrum.len() as int, vertex_count as int)) by {
            assert forall|k: int| 0 <= k < rest.len() implies mapping_fits(
                #[trigger] rest[k],
                spectrum.len() as int,
                vertex_count as int,
            ) by {
                assert(rest[k] == mappings[k]);
            }
        }
        lemma_silence_gives_zero_weights(spectrum, rest, vertex_count);
        lemma_mapped_weights_len(spectrum, rest, vertex_count);
        let mapping = mappings.last();
        assert(mapping_fits(mappings[mappings.len() - 1], spectrum.len() as int, vertex_count as int));
        let band = spectrum.subrange(mapping.source_start as int, mapping.source_end as int);
        if band.len() > 0 {
            lemma_resampled_within_range(band, (mapping.dest_end - mapping.dest_start) as nat);
            lemma_all_zero_extremes(band);
        }
    }
}

proof fn lemma_all_zero_extremes(s: Seq<u32>)
    requires
        forall|i: int| 0 <= i < s.len() ==> s[i] == 0,
    ensures
        max_of(s) == 0,
        min_of(s) == 0,
    decreases s.len(),
{
    if s.len() > 1 {
        lemma_all_zero_extremes(s.drop_last());
    }
}

/// Start of the `k`-th of four equal parts of the vertices `first..end`.
pub open spec fn quarter(first: int, end: int, k: int) -> int {
    first + (end - first) * k / 4
}

/// Four mappings that split the vertices `first..end` into quarters and
/// drive them alternately from the low band `0..low_band_end` and the
/// remaining band `low_band_end..spectrum_len`.
pub open spec fn quadrants(spectrum_len: int, low_band_end: int, first: int, end: int) -> Seq<
    BandMapping,
> {
    let low = 0usize;
    let split = low_band_end as usize;
    let high = spectrum_len as usize;
    let q = |k: int| quarter(first, end, k) as usize;
    seq![
        BandMapping { source_start: low, source_end: split, dest_start: q(0), dest_end: q(1) },
        BandMapping { source_start: split, source_end: high, dest_start: q(1), dest_end: q(2) },
        BandMapping { source_start: low, source_end: split, dest_start: q(2), dest_end: q(3) },
        BandMapping { source_start: split, source_end: high, dest_start: q(3), dest_end: q(4) },
    ]
}

/// The four quadrant mappings of the vertices `first..end`.
pub fn quadrant_mappings(spectrum_len: usize, low_band_end: usize, first: usize, end: usize) -> (mappings: Vec<BandMapping>)
    requires
        0 < low_band_end < spectrum_len,
        first <= end,
    ensures
        mappings@ == quadrants(spectrum_len as int, low_band_end as int, first as int, end as int),
        forall|vertex_count: int|
            end <= vertex_count ==> #[trigger] mappings_fit(mappings@, spectrum_len as int, vertex_count),
{
    let span = end - first;
    let ghost f = first as int;
    let ghost e = end as int;
    proof {
        assert forall|k: int| 0 <= k <= 4 implies f <= #[trigger] quarter(f, e, k) <= e by {
            assert(0 <= (e - f) * k <= (e - f) * 4) by (nonlinear_arith)
                requires 0 <= k <= 4, f <= e;
            vstd::arithmetic::div_mod::lemma_div_is_ordered(0, (e - f) * k, 4);
            vstd::arithmetic::div_mod::lemma_div_is_ordered((e - f) * k, (e - f) * 4, 4);
            assert((e - f) * 4 / 4 == e - f) by (nonlinear_arith);
        }
        assert((e - f) * 4 / 4 == e - f) by (nonlinear_arith);
        assert(0 * (e - f) == 0);
        assert forall|j: int, k: int| 0 <= j <= k <= 4 implies #[trigger] quarter(f, e, j) <= #[trigger] quarter(f, e, k) by {
            assert((e - f) * j <= (e - f) * k) by (nonlinear_arith)
                requires 0 <= j <= k, f <= e;
            vstd::arithmetic::div_mod::lemma_div_is_ordered((e - f) * j, (e - f) * k, 4);
        }
    }
    let q1 = first + span / 4;
    let q2 = first + span / 2;
    let q3 = first + ((3 * (span as u128)) / 4) as usize;
    assert(quarter(f, e, 0) == first && quarter(f, e, 1) == q1 && quarter(f, e, 2) == q2);
    assert(quarter(f, e, 3) == q3 && quarter(f, e, 4) == end);
    let mut mappings: Vec<BandMapping> = Vec::new();
    let split = low_band_end;
    let high = spectrum_len;
    mappings.push(BandMapping { source_start: 0, source_end: split, dest_start: first, dest_end: q1 });
    mappings.push(BandMapping { source_start: split, source_end: high, dest_start: q1, dest_end: q2 });
    mappings.push(BandMapping { source_start: 0, source_end: split, dest_start: q2, dest_end: q3 });
    mappings.push(BandMapping { source_start: split, source_end: high, dest_start: q3, dest_end: end });
    assert(mappings@ =~= quadrants(spectrum_len as int, low_band_end as int, first as int, end as int));
    mappings
}

impl Sphere {
    /// The vertices off the two pole rings: `sector_count..(ring_count - 1) * sector_count`.
    pub open spec fn body(&self) -> (int, int) {
        (self.sector_count as int, (self.ring_count - 1) * self.sector_count)
    }

    /// The quadrant mappings of the vertices off the pole rings, for a
    /// spectrum of `spectrum_len` bins split at `low_band_end`.
    pub fn band_mappings(&self, spectrum_len: usize, low_band_end: usize) -> (mappings: Vec<BandMapping>)
        requires
            self.wf(),
            0 < low_band_end < spectrum_len,
        ensures
            mappings@ == quadrants(spectrum_len as int, low_band_end as int, self.body().0, self.body().1),
            mappings_fit(mappings@, spectrum_len as int, self.vertices@.len() as int),
    {
        proof {
            let r = self.ring_count as int;
            let s = self.sector_count as int;
            assert(s <= (r - 1) * s <= r * s) by (nonlinear_arith)
                requires r >= 2, s >= 2;
        }
        let first = self.sector_count as usize;
        let end = ((self.ring_count - 1) * self.sector_count) as usize;
        quadrant_mappings(spectrum_len, low_band_end, first, end)
    }
}

/// Sum of a sequence.
pub open spec fn sum_of(s: Seq<u32>) -> int
    decreases s.len(),
{
    if s.len() == 0 {
        0
    } else {
        sum_of(s.drop_last()) + s.last() as int
    }
}

/// Total and peak of a spectrum that is not silent.
#[derive(Clone, Copy, Debug, PartialEq, Eq)]
pub struct SpectralEnergy {
    pub total: u128,
    pub peak: u32,
}

/// Total and peak of `spectrum`, whose ratio sets the rotation speed; `None`
/// when either is zero: the spectrum is silent and the rotation stops.
pub fn spectral_energy(spectrum: &[u32]) -> (energy: Option<SpectralEnergy>)
    ensures
        match energy {
            Some(e) => {
                &&& e.total == sum_of(spectrum@)
                &&& e.peak == max_of(spectrum@)
                &&& e.total != 0
                &&& e.peak != 0
            },
            None => sum_of(spectrum@) == 0 || max_of(spectrum@) == 0,
        },
{
    let mut total: u128 = 0;
    let mut peak: u32 = 0;
    let mut k: usize = 0;
    while k < spectrum.len()
        invariant
            k <= spectrum@.len(),
            total == sum_of(spectrum@.take(k as int)),
            peak == max_of(spectrum@.take(k as int)),
            total <= k * u32::MAX,
        decreases spectrum@.len() - k,
    {
        let x = spectrum[k];
        proof {
            assert(spectrum@.take(k + 1).drop_last() =~= spectrum@.take(k as int));
            assert(total + x <= (k + 1) * u32::MAX) by (nonlinear_arith)
                requires total <= k * u32::MAX, x <= u32::MAX;
            assert((k + 1) * u32::MAX <= u64::MAX * u32::MAX + u32::MAX) by (nonlinear_arith)
                requires k < u64::MAX;
        }
        total = total + x as u128;
        if x > peak {
            peak = x;
        }
        k = k + 1;
    }
    assert(spectrum@.take(k as int) =~= spectrum@);
    if total == 0 || peak == 0 {
        None
    } else {
        Some(SpectralEnergy { total, peak })
    }
}

/// A silent spectrum has zero total and zero peak, so it stops the rotation.
pub proof fn lemma_silence_stops_rotation(spectrum: Seq<u32>)
    requires
        forall|i: int| 0 <= i < spectrum.len() ==> spectrum[i] == 0,
    ensures
        sum_of(spectrum) == 0,
        max_of(spectrum) == 0,
    decreases spectrum.len(),
{
    lemma_all_zero_extremes(spectrum);
    if spectrum.len() > 0 {
        lemma_silence_stops_rotation(spectrum.drop_last());
    }
}

} // verus!
