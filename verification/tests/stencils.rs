//! Stencil tables and their inverses.

use std::collections::HashSet;
use subdiv_kernels::{AffectedScratch, Interpolatable, InverseStencilChain, InverseStencilMap, Scalar, StencilTable};

/// Single-precision weights.
#[derive(Debug, Clone, Copy, PartialEq, PartialOrd)]
struct F(f32);

impl Scalar for F {
    fn ratio_of(num: u32, den: u32) -> F {
        F::ratio(num, den)
    }
    fn plus_of(a: F, b: F) -> F {
        a.plus(b)
    }
    fn minus_of(a: F, b: F) -> F {
        a.minus(b)
    }
    fn times_of(a: F, b: F) -> F {
        a.times(b)
    }
    fn over_of(a: F, b: F) -> F {
        a.over(b)
    }
    fn larger_of(a: F, b: F) -> F {
        a.larger(b)
    }
    fn less_of(a: F, b: F) -> bool {
        a.less(b)
    }
    fn at_most_of(a: F, b: F) -> bool {
        a.at_most(b)
    }
    fn finite_of(a: F) -> bool {
        a.is_finite()
    }
    fn cos_turn_of(num: u64, den: u64) -> F {
        F::cos_turn(num, den)
    }
    fn sin_turn_of(num: u64, den: u64) -> F {
        F::sin_turn(num, den)
    }
    fn sqrt_of(a: F) -> F {
        a.sqrt()
    }
    fn negated_of(a: F) -> F {
        a.negated()
    }
    fn ratio(num: u32, den: u32) -> F {
        F(num as f32 / den as f32)
    }
    fn cos_turn(num: u64, den: u64) -> F {
        F((std::f32::consts::TAU * num as f32 / den as f32).cos())
    }
    fn sin_turn(num: u64, den: u64) -> F {
        F((std::f32::consts::TAU * num as f32 / den as f32).sin())
    }
    fn sqrt(self) -> F {
        F(self.0.sqrt())
    }
    fn negated(self) -> F {
        F(-self.0)
    }
    fn plus(self, other: F) -> F {
        F(self.0 + other.0)
    }
    fn minus(self, other: F) -> F {
        F(self.0 - other.0)
    }
    fn times(self, other: F) -> F {
        F(self.0 * other.0)
    }
    fn over(self, other: F) -> F {
        F(self.0 / other.0)
    }
    fn larger(self, other: F) -> F {
        F(self.0.max(other.0))
    }
    fn less(self, other: F) -> bool {
        self.0 < other.0
    }
    fn at_most(self, other: F) -> bool {
        self.0 <= other.0
    }
    fn is_finite(self) -> bool {
        self.0.is_finite()
    }
}

impl<const N: usize> Interpolatable<F> for [f32; N] {
    fn origin_of() -> Self {
        <Self as Interpolatable<F>>::origin()
    }
    fn moved(mut self, src: Self, weight: F) -> Self {
        self.add_with_weight(&src, weight);
        self
    }
    fn origin() -> Self {
        [0.0; N]
    }
    fn add_with_weight(&mut self, src: &Self, weight: F) {
        for (a, b) in self.iter_mut().zip(src) {
            *a += b * weight.0;
        }
    }
}

impl<const N: usize> Interpolatable<F> for [f64; N] {
    fn origin_of() -> Self {
        <Self as Interpolatable<F>>::origin()
    }
    fn moved(mut self, src: Self, weight: F) -> Self {
        self.add_with_weight(&src, weight);
        self
    }
    fn origin() -> Self {
        [0.0; N]
    }
    fn add_with_weight(&mut self, src: &Self, weight: F) {
        for (a, b) in self.iter_mut().zip(src) {
            *a += b * weight.0 as f64;
        }
    }
}

impl Interpolatable<F> for f32 {
    fn origin_of() -> Self {
        <Self as Interpolatable<F>>::origin()
    }
    fn moved(mut self, src: Self, weight: F) -> Self {
        self.add_with_weight(&src, weight);
        self
    }
    fn origin() -> Self {
        0.0
    }
    fn add_with_weight(&mut self, src: &Self, weight: F) {
        *self += src * weight.0;
    }
}

#[test]
fn identity_preserves_input() {
    let table = StencilTable::<F>::identity(3);
    let input: Vec<[f32; 2]> = vec![[1.0, 2.0], [3.0, 4.0], [5.0, 6.0]];
    let output = table.interpolate(&input);
    assert_eq!(output, input);
}

#[test]
fn midpoint_stencil() {
    let table = StencilTable {
        offsets: vec![0, 2],
        indices: vec![0, 1],
        weights: vec![F(0.5), F(0.5)],
    };
    let input = vec![[0.0_f32, 0.0], [2.0, 4.0]];
    let output = table.interpolate(&input);
    assert_eq!(output, vec![[1.0, 2.0]]);
}

#[test]
fn compose_identity_is_identity() {
    let a = StencilTable::<F>::identity(3);
    let b = StencilTable {
        offsets: vec![0, 2, 4],
        indices: vec![0, 1, 1, 2],
        weights: vec![F(0.5), F(0.5), F(0.5), F(0.5)],
    };
    let composed = a.compose(&b);
    let input = vec![1.0_f32, 3.0, 5.0];
    assert_eq!(composed.interpolate(&input), b.interpolate(&input));
}

#[test]
fn compose_chains_correctly() {
    let ab = StencilTable {
        offsets: vec![0, 2, 3, 4],
        indices: vec![0, 1, 1, 0],
        weights: vec![F(0.5), F(0.5), F(1.0), F(1.0)],
    };
    let bc = StencilTable {
        offsets: vec![0, 3],
        indices: vec![0, 1, 2],
        weights: vec![F(1.0 / 3.0), F(1.0 / 3.0), F(1.0 / 3.0)],
    };

    let ac = ab.compose(&bc);
    let input = vec![2.0_f32, 8.0];

    let b = ab.interpolate(&input);
    let c_via_b = bc.interpolate(&b);
    let c_direct = ac.interpolate(&input);

    c_via_b
        .iter()
        .zip(c_direct.iter())
        .for_each(|(a, b)| assert!((a - b).abs() < 1e-6));
}

#[test]
fn interpolate_f64() {
    let table = StencilTable {
        offsets: vec![0, 3],
        indices: vec![0, 1, 2],
        weights: vec![F(0.25), F(0.5), F(0.25)],
    };
    let input: Vec<[f64; 3]> = vec![[0.0, 0.0, 0.0], [4.0, 8.0, 12.0], [0.0, 0.0, 0.0]];
    let output = table.interpolate(&input);
    assert_eq!(output, vec![[2.0, 4.0, 6.0]]);
}

#[test]
fn interpolate_rows_matches_full_on_subset_and_preserves_others() {
    let table = StencilTable {
        offsets: vec![0, 1, 3, 4, 6],
        indices: vec![0, 0, 1, 1, 1, 2],
        weights: vec![F(1.0), F(0.5), F(0.5), F(1.0), F(0.5), F(0.5)],
    };
    let input: Vec<[f32; 3]> = vec![[1.0, 0.0, 0.0], [0.0, 2.0, 0.0], [0.0, 0.0, 4.0]];
    let full = table.interpolate(&input);

    let sentinel = [-9.0_f32, -9.0, -9.0];
    let mut out = vec![sentinel; table.output_count()];
    table.interpolate_rows(&input, &[1, 3], &mut out);

    assert_eq!(out[1], full[1]);
    assert_eq!(out[3], full[3]);
    assert_eq!(out[0], sentinel);
    assert_eq!(out[2], sentinel);
}

fn sample_table() -> StencilTable<F> {
    StencilTable {
        offsets: vec![0, 1, 3, 4, 6],
        indices: vec![0, 0, 1, 1, 1, 2],
        weights: vec![F(1.0), F(0.5), F(0.5), F(1.0), F(0.5), F(0.5)],
    }
}

fn brute_force_affected(table: &StencilTable<F>, changed: &[u32]) -> Vec<u32> {
    let set: HashSet<u32> = changed.iter().copied().collect();
    (0..table.output_count() as u32)
        .filter(|&r| {
            let s = table.offsets[r as usize] as usize;
            let e = table.offsets[r as usize + 1] as usize;
            table.indices[s..e].iter().any(|i| set.contains(i))
        })
        .collect()
}

#[test]
fn affected_outputs_for_single_input() {
    let inv = InverseStencilMap::from(&sample_table());
    assert_eq!(inv.affected_outputs(&[0]), vec![0, 1]);
    assert_eq!(inv.affected_outputs(&[1]), vec![1, 2, 3]);
    assert_eq!(inv.affected_outputs(&[2]), vec![3]);
}

#[test]
fn affected_outputs_is_sorted_unique_union() {
    let inv = InverseStencilMap::from(&sample_table());
    assert_eq!(inv.affected_outputs(&[2, 0, 0]), vec![0, 1, 3]);
}

#[test]
fn affected_outputs_matches_brute_force() {
    let table = sample_table();
    let inv = InverseStencilMap::from(&table);
    for changed in [
        vec![],
        vec![0],
        vec![1],
        vec![2],
        vec![0, 1],
        vec![0, 2],
        vec![1, 2],
        vec![0, 1, 2],
    ] {
        assert_eq!(
            inv.affected_outputs(&changed),
            brute_force_affected(&table, &changed),
            "changed = {changed:?}"
        );
    }
}

#[test]
fn out_of_range_or_empty_input_affects_nothing() {
    let inv = InverseStencilMap::from(&sample_table());
    assert!(inv.affected_outputs(&[99]).is_empty());
    assert!(inv.affected_outputs(&[]).is_empty());
}

fn two_level_tables() -> (StencilTable<F>, StencilTable<F>) {
    let t0 = sample_table();
    let t1 = StencilTable {
        offsets: vec![0, 1, 3, 4],
        indices: vec![0, 1, 2, 3],
        weights: vec![F(1.0), F(0.5), F(0.5), F(1.0)],
    };
    (t0, t1)
}

#[test]
fn chain_affected_outputs_matches_composed_table() {
    let (t0, t1) = two_level_tables();
    let chain = InverseStencilChain::from([t0.clone(), t1.clone()].as_slice());
    let composed = t0.compose(&t1);
    for changed in [vec![], vec![0], vec![1], vec![2], vec![0, 2], vec![0, 1, 2]] {
        assert_eq!(
            chain.affected_outputs(&changed),
            brute_force_affected(&composed, &changed),
            "changed = {changed:?}"
        );
    }
}

#[test]
fn chain_single_level_matches_single_map() {
    let t0 = sample_table();
    let chain = InverseStencilChain::from(std::slice::from_ref(&t0));
    let map = InverseStencilMap::from(&t0);
    for changed in [vec![0], vec![1], vec![2], vec![0, 1, 2]] {
        assert_eq!(
            chain.affected_outputs(&changed),
            map.affected_outputs(&changed)
        );
    }
}

#[test]
fn chain_with_no_levels_is_identity() {
    let chain = InverseStencilChain::from(&[] as &[StencilTable<F>]);
    assert_eq!(chain.affected_outputs(&[2, 0, 0]), vec![0, 2]);
    assert!(chain.affected_outputs(&[]).is_empty());
}

#[test]
fn affected_outputs_into_matches_oracle_and_reuses_scratch() {
    let (t0, t1) = two_level_tables();
    let chain = InverseStencilChain::from([t0.clone(), t1.clone()].as_slice());
    let composed = t0.compose(&t1);
    let mut scratch = AffectedScratch::default();
    let mut out = Vec::new();
    for changed in [vec![0u32], vec![2], vec![], vec![0, 1, 2], vec![1]] {
        chain.affected_outputs_into(&changed, &mut scratch, &mut out);
        assert_eq!(
            out,
            brute_force_affected(&composed, &changed),
            "changed = {changed:?}"
        );
    }
}

#[test]
fn affected_outputs_into_no_levels_is_identity_and_clears_out() {
    let chain = InverseStencilChain::from(&[] as &[StencilTable<F>]);
    let mut scratch = AffectedScratch::default();
    let mut out = vec![999];
    chain.affected_outputs_into(&[2, 0, 0], &mut scratch, &mut out);
    assert_eq!(out, vec![0, 2]);
}
