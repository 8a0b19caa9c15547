use dithord::{DitherError, ThresholdMap, MAX_LEVEL};

fn ranks(map: &ThresholdMap) -> Vec<Vec<u32>> {
    let size = map.size();
    (0..size)
        .map(|row| (0..size).map(|col| map.sample(col, row)).collect())
        .collect()
}

fn thresholds(map: &ThresholdMap) -> Vec<Vec<f32>> {
    let cells = map.denominator() as f32;
    ranks(map)
        .into_iter()
        .map(|row| row.into_iter().map(|rank| rank as f32 / cells).collect())
        .collect()
}

fn scaled(rows: &[&[f32]], by: f32) -> Vec<Vec<f32>> {
    rows.iter()
        .map(|row| row.iter().map(|cell| cell / by).collect())
        .collect()
}

fn level_2() -> ThresholdMap {
    ThresholdMap::level(2).unwrap()
}

#[test]
fn construct_level_0() {
    let map = ThresholdMap::level(0).unwrap();
    assert_eq!(map.size(), 2);
    assert_eq!(map.denominator(), 4);
    assert_eq!(ranks(&map), vec![vec![0, 3], vec![2, 1]]);
    let expected = scaled(&[&[0.0, 3.0], &[2.0, 1.0]], 4.0);
    assert_eq!(thresholds(&map), expected);
}

#[test]
fn construct_level_1() {
    let map = ThresholdMap::level(1).unwrap();
    assert_eq!(map.size(), 4);
    assert_eq!(map.denominator(), 16);
    assert_eq!(
        ranks(&map),
        vec![
            vec![0, 12, 3, 15],
            vec![8, 4, 11, 7],
            vec![2, 14, 1, 13],
            vec![10, 6, 9, 5],
        ]
    );
    let expected = scaled(
        &[
            &[0.0, 12.0, 3.0, 15.0],
            &[8.0, 4.0, 11.0, 7.0],
            &[2.0, 14.0, 1.0, 13.0],
            &[10.0, 6.0, 9.0, 5.0],
        ],
        16.0,
    );
    assert_eq!(thresholds(&map), expected);
}

#[test]
fn construct_level_2() {
    let map = level_2();
    assert_eq!(map.size(), 8);
    assert_eq!(map.denominator(), 64);
    assert_eq!(
        ranks(&map),
        vec![
            vec![0, 48, 12, 60, 3, 51, 15, 63],
            vec![32, 16, 44, 28, 35, 19, 47, 31],
            vec![8, 56, 4, 52, 11, 59, 7, 55],
            vec![40, 24, 36, 20, 43, 27, 39, 23],
            vec![2, 50, 14, 62, 1, 49, 13, 61],
            vec![34, 18, 46, 30, 33, 17, 45, 29],
            vec![10, 58, 6, 54, 9, 57, 5, 53],
            vec![42, 26, 38, 22, 41, 25, 37, 21],
        ]
    );
    let expected = scaled(
        &[
            &[0.0, 48.0, 12.0, 60.0, 3.0, 51.0, 15.0, 63.0],
            &[32.0, 16.0, 44.0, 28.0, 35.0, 19.0, 47.0, 31.0],
            &[8.0, 56.0, 4.0, 52.0, 11.0, 59.0, 7.0, 55.0],
            &[40.0, 24.0, 36.0, 20.0, 43.0, 27.0, 39.0, 23.0],
            &[2.0, 50.0, 14.0, 62.0, 1.0, 49.0, 13.0, 61.0],
            &[34.0, 18.0, 46.0, 30.0, 33.0, 17.0, 45.0, 29.0],
            &[10.0, 58.0, 6.0, 54.0, 9.0, 57.0, 5.0, 53.0],
            &[42.0, 26.0, 38.0, 22.0, 41.0, 25.0, 37.0, 21.0],
        ],
        64.0,
    );
    assert_eq!(thresholds(&map), expected);
}

fn sampled(x: usize, y: usize) -> f32 {
    let map = level_2();
    map.sample(x, y) as f32 / map.denominator() as f32
}

#[test]
fn sample_at_origin() {
    assert_eq!(level_2().sample(0, 0), 0);
    assert_eq!(sampled(0, 0), 0.0);
}

#[test]
fn sample_inside() {
    assert_eq!(level_2().sample(2, 3), 36);
    assert_eq!(sampled(2, 3), 36.0 / 64.0);
}

#[test]
fn sample_last_cell() {
    assert_eq!(level_2().sample(7, 7), 21);
    assert_eq!(sampled(7, 7), 21.0 / 64.0);
}

#[test]
fn sample_wraps_both_axes() {
    assert_eq!(level_2().sample(8, 8), 0);
    assert_eq!(sampled(8, 8), 0.0);
}

#[test]
fn sample_wraps_one_axis() {
    assert_eq!(level_2().sample(6, 8), 15);
    assert_eq!(sampled(6, 8), 15.0 / 64.0);
}

#[test]
fn sample_reads_row_y_and_column_x() {
    let map = ThresholdMap::level(0).unwrap();
    assert_eq!(map.sample(1, 0), 3);
    assert_eq!(map.sample(0, 1), 2);
}

#[test]
fn sample_is_toroidal() {
    for level in 0..4 {
        let map = ThresholdMap::level(level).unwrap();
        let side = map.size();
        for y in 0..(2 * side + 1) {
            for x in 0..(2 * side + 1) {
                let here = map.sample(x, y);
                assert_eq!(here, map.sample(x + side, y));
                assert_eq!(here, map.sample(x, y + side));
                assert_eq!(here, map.sample(x % side, y % side));
            }
        }
    }
}

#[test]
fn sample_accepts_the_largest_coordinates() {
    let map = level_2();
    assert_eq!(map.sample(usize::MAX, usize::MAX), map.sample(7, 7));
}

#[test]
fn side_is_a_power_of_two_and_thresholds_are_below_one() {
    for level in 0..7u32 {
        let map = ThresholdMap::level(level).unwrap();
        let side = map.size();
        assert_eq!(side, 1usize << (level + 1));
        assert_eq!(map.denominator() as usize, side * side);
        for row in ranks(&map) {
            assert_eq!(row.len(), side);
            for rank in row {
                assert!(rank < map.denominator());
                let threshold = rank as f32 / map.denominator() as f32;
                assert!((0.0..1.0).contains(&threshold));
            }
        }
    }
}

#[test]
fn every_rank_occurs_once() {
    for level in 0..6u32 {
        let map = ThresholdMap::level(level).unwrap();
        let mut seen = vec![false; map.denominator() as usize];
        for row in ranks(&map) {
            for rank in row {
                assert!(!seen[rank as usize]);
                seen[rank as usize] = true;
            }
        }
        assert!(seen.into_iter().all(|hit| hit));
    }
}

#[test]
fn finer_level_embeds_the_coarser_pattern() {
    for level in 0..5u32 {
        let coarse = ThresholdMap::level(level).unwrap();
        let fine = ThresholdMap::level(level + 1).unwrap();
        let half = coarse.size();
        let base = [[0, 3], [2, 1]];
        for y in 0..fine.size() {
            for x in 0..fine.size() {
                let expected = 4 * coarse.sample(x % half, y % half) + base[y / half][x / half];
                assert_eq!(fine.sample(x, y), expected);
            }
        }
    }
}

#[test]
fn generation_is_deterministic() {
    for level in 0..6u32 {
        let first = ThresholdMap::level(level).unwrap();
        let second = ThresholdMap::level(level).unwrap();
        assert_eq!(first, second);
        assert_eq!(ranks(&first), ranks(&second));
    }
    assert_ne!(ThresholdMap::level(1).unwrap(), ThresholdMap::level(2).unwrap());
}

#[test]
fn level_three_cell_holds_a_quarter() {
    let map = ThresholdMap::level(3).unwrap();
    assert_eq!(map.size(), 16);
    assert_eq!(map.denominator(), 256);
    assert_eq!(map.sample(1, 1), 64);
    assert_eq!(map.sample(1, 1) as f32 / map.denominator() as f32, 0.25);
}

#[test]
fn largest_level_is_built() {
    let map = ThresholdMap::level(MAX_LEVEL).unwrap();
    assert_eq!(MAX_LEVEL, 11);
    assert_eq!(map.size(), 4096);
    assert_eq!(map.denominator(), 1 << 24);
    assert_eq!(map.sample(0, 0), 0);
    assert_eq!(map.sample(1, 0), 3 << 22);
    assert_eq!(map.sample(4095, 0), (1 << 24) - 1);
    let rank = map.sample(4095, 4095);
    assert_eq!(rank, 0x55_5555);
    assert_eq!(rank as f32 as u32, rank);
}

#[test]
fn level_above_the_largest_is_refused() {
    assert_eq!(
        ThresholdMap::level(MAX_LEVEL + 1).err(),
        Some(DitherError::InvalidParameter)
    );
    assert_eq!(ThresholdMap::level(31).err(), Some(DitherError::InvalidParameter));
    assert_eq!(
        ThresholdMap::level(u32::MAX).err(),
        Some(DitherError::InvalidParameter)
    );
}
