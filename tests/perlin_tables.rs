use raytrac::aabb::Coords;
use raytrac::perlin::Perlin;
use raytrac::scalar::Scalar;

fn gradients() -> Vec<Coords> {
    (0..256)
        .map(|i| {
            let x = Scalar::from_bits((i as f64).to_bits());
            Coords::new(x, x, x)
        })
        .collect()
}

#[test]
fn generated_tables_are_permutations() {
    for _ in 0..5 {
        let mut p = Perlin::perlin_generate_perm();
        assert_eq!(p.len(), 256);
        p.sort();
        assert_eq!(p, (0..256).collect::<Vec<usize>>());
    }
}

#[test]
fn permute_touches_only_the_prefix() {
    let mut p: Vec<usize> = (0..20).collect();
    Perlin::permute(&mut p, 8);
    assert_eq!(&p[8..], &(8..20).collect::<Vec<usize>>()[..]);
    let mut head = p[..8].to_vec();
    head.sort();
    assert_eq!(head, (0..8).collect::<Vec<usize>>());
}

#[test]
fn corner_gradient_follows_the_tables() {
    let perlin = Perlin::new(gradients());
    for (i, j, k) in [(0usize, 0usize, 0usize), (3, 17, 200), (255, 255, 255), (1000, 7, usize::MAX)] {
        for d in 0..8usize {
            let (di, dj, dk) = (d & 1, (d >> 1) & 1, (d >> 2) & 1);
            let slot = perlin.perm_x[i.wrapping_add(di) & 255] ^ perlin.perm_y[j.wrapping_add(dj) & 255] ^ perlin.perm_z[k.wrapping_add(dk) & 255];
            assert_eq!(perlin.corner_gradient(i, j, k, di, dj, dk), perlin.ranvec[slot]);
        }
    }
}

#[test]
fn permute_with_follows_the_draws() {
    let mut p: Vec<usize> = (0..4).collect();
    // slot 3 with 1, slot 2 with 2, slot 1 with 0, slot 0 with 0
    Perlin::permute_with(&mut p, 4, &vec![0, 0, 2, 1]);
    assert_eq!(p, vec![3, 0, 2, 1]);
    let mut q: Vec<usize> = (0..5).collect();
    Perlin::permute_with(&mut q, 3, &vec![0, 1, 2]);
    assert_eq!(q, vec![0, 1, 2, 3, 4]);
}

#[test]
fn generated_table_with_draws() {
    let draws: Vec<usize> = (0..256).map(|k| if k == 255 { 0 } else { k }).collect();
    let p = Perlin::perlin_generate_perm_with(&draws);
    let mut expected: Vec<usize> = (0..256).collect();
    expected.swap(255, 0);
    assert_eq!(p, expected);
    let zeros: Vec<usize> = vec![0; 256];
    let z = Perlin::perlin_generate_perm_with(&zeros);
    // every slot from the last down is exchanged with slot 0
    let mut expected: Vec<usize> = (0..256).collect();
    for i in (0..256).rev() {
        expected.swap(i, 0);
    }
    assert_eq!(z, expected);
    assert_ne!(z, (0..256).collect::<Vec<usize>>());
}
