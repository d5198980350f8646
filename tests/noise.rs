use procnoise::noise::{hash, Noise2D, NoiseOctaveCollection};

fn normalized(raw: u32) -> f32 {
    raw as f32 / u32::MAX as f32
}

#[test]
fn it_works() {
    assert_eq!(2 + 2, 4);
}

#[test]
fn test_hash_collisions() {
    let mut hashes = Vec::new();
    let first_hash = hash(0);
    hashes.push(first_hash);
    for i in 1..1_000u32 {
        let new_hash = hash(i);
        hashes.push(new_hash);
        for j in 0..i - 1 {
            assert_ne!(hashes[i as usize], hashes[j as usize]);
        }
    }
}

#[test]
fn test_hash_speed() {
    let before = std::time::Instant::now();
    let n = 10_000_000u64;
    let mut stored_hash = 0u32;
    for _i in 0..n {
        stored_hash = hash(stored_hash);
    }
    let t_elapsed = before.elapsed();
    println!("Running {} hashes took {} seconds.", n, t_elapsed.as_secs());
}

#[test]
fn hash_is_deterministic() {
    for s in [0u32, 1, 4, 12345, u32::MAX] {
        assert_eq!(hash(s), hash(s));
    }
    assert_eq!(hash(1), 3266786691);
    assert_eq!(hash(4), 2047918803);
}

#[test]
fn hash_fixes_zero() {
    assert_eq!(hash(0), 0);
}

#[test]
fn hash_chain_from_one_has_no_collisions() {
    let mut seen = Vec::new();
    let mut h = 1u32;
    for _ in 0..1000 {
        h = hash(h);
        assert!(!seen.contains(&h));
        seen.push(h);
    }
}

#[test]
fn white_noise_two_by_two_seed_one() {
    let g = Noise2D::white_noise(2, 2, 1);
    assert_eq!(g.nx, 2);
    assert_eq!(g.ny, 2);
    assert_eq!(g.data, vec![3266786691u32, 2331554940, 165305333, 3710271995]);
    assert_eq!(g.get(1, 0), 2331554940);
    assert_eq!(g.get(0, 1), 165305333);
    let values: Vec<f32> = g.data.iter().map(|&v| normalized(v)).collect();
    assert_eq!(values, vec![0.7606080770492554f32, 0.5428574085235596, 0.03848814591765404, 0.8638650178909302]);
}

#[test]
fn white_noise_values_are_in_unit_range() {
    let g = Noise2D::white_noise(17, 9, 42);
    assert_eq!(g.data.len(), 17 * 9);
    for &raw in &g.data {
        let v = normalized(raw);
        assert!(v >= 0.0 && v <= 1.0);
    }
}

#[test]
fn grid_new_is_filled() {
    let g = Noise2D::new(3, 2, 0.0f32);
    assert_eq!(g.data, vec![0.0f32; 6]);
}

#[test]
fn grid_set_then_get() {
    let mut g = Noise2D::new(3, 2, 0.0f32);
    g.set(2, 1, 0.5);
    assert_eq!(g.get(2, 1), 0.5);
    assert_eq!(g.data[2 + 3], 0.5);
    g.set(0, 1, 0.25);
    assert_eq!(g.get(0, 1), 0.25);
    assert_eq!(g.get(2, 1), 0.5);
    assert_eq!(g.get(0, 0), 0.0);
}

#[test]
fn interpolate_corners_and_centre() {
    let (a, b, c, d) = (11u32, 22u32, 33u32, 44u32);
    assert_eq!(NoiseOctaveCollection::interpolate(0, 0, 1, a, b, c, d), 11);
    assert_eq!(NoiseOctaveCollection::interpolate(1, 0, 1, a, b, c, d), 33);
    assert_eq!(NoiseOctaveCollection::interpolate(0, 1, 1, a, b, c, d), 22);
    assert_eq!(NoiseOctaveCollection::interpolate(1, 1, 1, a, b, c, d), 44);
    // a quarter of 1, in units of 1 / 2^2
    assert_eq!(NoiseOctaveCollection::interpolate(1, 1, 2, 1, 0, 0, 0), 1);
    assert_eq!(NoiseOctaveCollection::interpolate(1, 3, 4, 16, 0, 0, 0), 16 * 3);
}

#[test]
fn interpolate_largest_values() {
    let m = u32::MAX;
    let den = u32::MAX;
    let r = NoiseOctaveCollection::interpolate(7, den - 5, den, m, m, m, m);
    assert_eq!(r, (den as u128) * (den as u128) * (m as u128));
}

#[test]
fn octave_dimensions() {
    let c = NoiseOctaveCollection::fractal_noise(5, 9);
    assert_eq!(c.noises.len(), 5);
    for (k, g) in c.noises.iter().enumerate() {
        assert_eq!(g.nx, (1usize << k) + 1);
        assert_eq!(g.ny, (1usize << k) + 1);
        assert_eq!(g.data.len(), g.nx * g.ny);
    }
    assert_eq!(c.fractal_map_side(), 17);
}

#[test]
fn zero_octaves_is_empty() {
    let c = NoiseOctaveCollection::fractal_noise(0, 3);
    assert!(c.noises.is_empty());
}

#[test]
fn octaves_are_seeded_from_hashed_seed() {
    let c = NoiseOctaveCollection::fractal_noise(2, 4);
    let base = hash(4);
    assert_eq!(c.noises[0].data, Noise2D::white_noise(2, 2, base).data);
    assert_eq!(c.noises[1].data, Noise2D::white_noise(3, 3, base + 1).data);
    assert_eq!(c.noises[0].data[0], 1985100446);
    assert_eq!(c.noises[1].data[0], 3129055045);
}

#[test]
fn fractal_noise_two_octaves_corner_sample() {
    let c = NoiseOctaveCollection::fractal_noise(2, 4);
    assert_eq!(c.noises[0].nx, 2);
    assert_eq!(c.noises[1].nx, 3);
    let s = c.sample(0, 0);
    assert_eq!(s.len(), 2);
    for (k, o) in s.iter().enumerate() {
        assert_eq!(o.ri, 0);
        assert_eq!(o.rj, 0);
        assert_eq!(o.lox_loy, c.noises[k].get(0, 0));
        let n = o.size as u128;
        assert_eq!(o.blend(), n * n * c.noises[k].get(0, 0) as u128);
    }
    assert_eq!(s[0].size, 2);
    assert_eq!(s[1].size, 1);
}

#[test]
fn sample_interior_point() {
    let c = NoiseOctaveCollection::fractal_noise(3, 7);
    // domain [0, 4]; octave 0 has cells of 4 points, octave 1 of 2, octave 2 of 1
    let s = c.sample(3, 1);
    assert_eq!(s.len(), 3);
    let g0 = &c.noises[0];
    assert_eq!((s[0].size, s[0].ri, s[0].rj), (4, 3, 1));
    assert_eq!(s[0].lox_loy, g0.get(0, 0));
    assert_eq!(s[0].hix_loy, g0.get(1, 0));
    assert_eq!(s[0].lox_hiy, g0.get(0, 1));
    assert_eq!(s[0].hix_hiy, g0.get(1, 1));
    let g1 = &c.noises[1];
    assert_eq!((s[1].size, s[1].ri, s[1].rj), (2, 1, 1));
    assert_eq!(s[1].lox_loy, g1.get(1, 0));
    assert_eq!(s[1].hix_hiy, g1.get(2, 1));
    let g2 = &c.noises[2];
    assert_eq!((s[2].size, s[2].ri, s[2].rj), (1, 0, 0));
    assert_eq!(s[2].lox_loy, g2.get(3, 1));
    assert_eq!(s[2].hix_loy, g2.get(4, 1));
    // (3 * 3) / 16 of the far corner and so on
    let b = s[0].blend();
    let expect = 1 * 3 * g0.get(0, 0) as u128 + 1 * 1 * g0.get(0, 1) as u128
        + 3 * 3 * g0.get(1, 0) as u128 + 3 * 1 * g0.get(1, 1) as u128;
    assert_eq!(b, expect);
}

#[test]
fn sample_upper_edge_is_clamped() {
    let c = NoiseOctaveCollection::fractal_noise(3, 2);
    let s = c.sample(4, 4);
    for (k, o) in s.iter().enumerate() {
        let last = c.noises[k].nx - 1;
        assert_eq!(o.ri, 0);
        assert_eq!(o.lox_loy, c.noises[k].get(last, last));
        assert_eq!(o.hix_hiy, c.noises[k].get(last, last));
        assert_eq!(o.hix_loy, c.noises[k].get(last, last));
    }
}

#[test]
fn white_noise_is_one_hash_chain() {
    let g = Noise2D::white_noise(5, 3, 77);
    assert_eq!(g.data[0], hash(77));
    for k in 0..g.data.len() - 1 {
        assert_eq!(g.data[k + 1], hash(g.data[k]));
    }
}
