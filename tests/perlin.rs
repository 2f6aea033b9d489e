use raytracer::perlin::{Perlin, POINT_COUNT};
use raytracer::random_i32_1;

fn is_permutation_of_range(p: &[i32], n: i32) -> bool {
    let mut sorted = p.to_vec();
    sorted.sort();
    sorted == (0..n).collect::<Vec<i32>>()
}

#[test]
fn random_ints_stay_in_range() {
    for _ in 0..1000 {
        let r = random_i32_1(-3, 4);
        assert!((-3..4).contains(&r));
    }
}

#[test]
fn random_int_of_single_value_range() {
    for _ in 0..100 {
        assert_eq!(random_i32_1(5, 6), 5);
    }
}

#[test]
fn random_ints_reach_every_value() {
    let mut seen = [false; 3];
    for _ in 0..2000 {
        seen[random_i32_1(0, 3) as usize] = true;
    }
    assert!(seen.iter().all(|&s| s));
}

#[test]
fn generated_perm_is_a_permutation() {
    for _ in 0..20 {
        let p = Perlin::perlin_generate_perm();
        assert_eq!(p.len(), 256);
        assert!(is_permutation_of_range(&p, POINT_COUNT));
    }
}

#[test]
fn permute_moves_but_keeps_entries() {
    let mut p: Vec<i32> = (0..10).map(|x| x * 7).collect();
    let before = p.clone();
    Perlin::permute(&mut p, 6);
    assert_eq!(p.len(), 10);
    assert_eq!(&p[6..], &before[6..]);
    let mut a = p.clone();
    a.sort();
    assert_eq!(a, before);
}

#[test]
fn permute_of_zero_or_one_leaves_all() {
    let mut p = vec![3, 1, 2];
    Perlin::permute(&mut p, 0);
    assert_eq!(p, vec![3, 1, 2]);
    Perlin::permute(&mut p, 1);
    assert_eq!(p, vec![3, 1, 2]);
}

#[test]
fn lattice_index_is_in_range_and_periodic() {
    let noise = Perlin::new();
    for i in -300..300 {
        let r = noise.lattice_index(i, i * 3, -i);
        assert!(r < 256);
        assert_eq!(r, noise.lattice_index(i + 256, i * 3 - 512, -i + 256));
    }
    assert_eq!(noise.lattice_index(-1, -1, -1), noise.lattice_index(255, 255, 255));
    assert!(noise.lattice_index(i32::MIN, i32::MAX, 0) < 256);
}

#[test]
fn lattice_index_along_one_axis_reaches_every_gradient() {
    let noise = Perlin::new();
    let mut seen = vec![false; 256];
    for i in 0..256 {
        seen[noise.lattice_index(i, 0, 0)] = true;
    }
    assert!(seen.iter().all(|&s| s));
}
