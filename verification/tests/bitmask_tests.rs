use farm_solitaire::bitmask::BitMask;
use farm_solitaire::farm::{from_farm_coords, to_farm_coords, FARM_HEIGHT, FARM_WIDTH, NUM_FARM_PLOTS};

#[test]
fn single_and_contains() {
    for x in 0..16 {
        let m = BitMask::single(x);
        assert_eq!(m.0, 1u16 << x);
        for y in 0..16 {
            assert_eq!(m.contains(y), x == y);
        }
    }
}

#[test]
fn flip_toggles_one_index() {
    let m = BitMask(0b1010_0000_0000_0101);
    for x in 0..16 {
        let f = m.flip(x);
        for y in 0..16 {
            assert_eq!(f.contains(y), if x == y { !m.contains(y) } else { m.contains(y) });
        }
        assert_eq!(f.flip(x), m);
    }
}

#[test]
fn is_empty_only_for_zero() {
    assert!(BitMask(0).is_empty());
    assert!(!BitMask(1).is_empty());
    assert!(!BitMask(0x8000).is_empty());
}

#[test]
fn next_yields_ascending_indices() {
    let mut m = BitMask(0b0000_0001_0010_0110);
    let mut seen = vec![];
    while let Some(i) = m.next() {
        seen.push(i);
    }
    assert_eq!(seen, vec![1, 2, 5, 8]);
    assert_eq!(m, BitMask(0));
    assert_eq!(m.next(), None);
}

#[test]
fn indices_lists_the_set() {
    assert_eq!(BitMask(0b1000_0000_0001_0001).indices(), vec![0, 4, 15]);
    assert_eq!(BitMask(0).indices(), Vec::<usize>::new());
    assert_eq!(BitMask(0xffff).indices(), (0..16).collect::<Vec<_>>());
}

#[test]
fn farm_coords_roundtrip() {
    assert_eq!(NUM_FARM_PLOTS, 9);
    for x in 0..NUM_FARM_PLOTS {
        let (r, c) = to_farm_coords(x);
        assert!(r < FARM_HEIGHT && c < FARM_WIDTH);
        assert_eq!(from_farm_coords(r, c), x);
    }
    assert_eq!(to_farm_coords(5), (1, 2));
    assert_eq!(from_farm_coords(2, 1), 7);
}

#[test]
fn next_enumerates_every_mask() {
    for v in 0..=u16::MAX {
        let mut m = BitMask(v);
        let mut seen = vec![];
        while let Some(i) = m.next() {
            seen.push(i);
        }
        let expected: Vec<usize> = (0..16).filter(|&i| (v >> i) & 1 == 1).collect();
        assert_eq!(seen, expected);
        assert_eq!(seen.len() as u32, v.count_ones());
        assert_eq!(m.next(), None);
    }
}
