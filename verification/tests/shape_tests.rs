use farm_solitaire::bitmask::BitMask;
use farm_solitaire::card::Suit;
use farm_solitaire::shapes::is_crop_group_shape;

fn mask(plots: &[usize]) -> BitMask {
    let mut m = BitMask(0);
    for &p in plots {
        m = m.flip(p);
    }
    m
}

fn count(suit: Suit) -> usize {
    (0u16..512).filter(|&m| is_crop_group_shape(suit, BitMask(m))).count()
}

#[test]
fn shape_counts() {
    assert_eq!(count(Suit::Melon), 4);
    assert_eq!(count(Suit::Corn), 9);
    assert_eq!(count(Suit::Blueberry), 24);
    assert_eq!(count(Suit::Eggplant), 16);
}

#[test]
fn no_shape_outside_the_farm() {
    for suit in Suit::all() {
        for m in 512u32..65536 {
            assert!(!is_crop_group_shape(suit, BitMask(m as u16)));
        }
    }
}

#[test]
fn melon_squares() {
    assert!(is_crop_group_shape(Suit::Melon, mask(&[0, 1, 3, 4])));
    assert!(is_crop_group_shape(Suit::Melon, mask(&[4, 5, 7, 8])));
    assert!(!is_crop_group_shape(Suit::Melon, mask(&[0, 1, 2, 3])));
    assert!(!is_crop_group_shape(Suit::Melon, mask(&[0, 1, 3])));
}

#[test]
fn corn_columns() {
    assert!(is_crop_group_shape(Suit::Corn, mask(&[0, 3])));
    assert!(is_crop_group_shape(Suit::Corn, mask(&[5, 8])));
    assert!(is_crop_group_shape(Suit::Corn, mask(&[1, 4, 7])));
    assert!(!is_crop_group_shape(Suit::Corn, mask(&[0, 1])));
    assert!(!is_crop_group_shape(Suit::Corn, mask(&[0, 6])));
    assert!(!is_crop_group_shape(Suit::Corn, mask(&[4])));
}

#[test]
fn blueberry_pairs() {
    assert!(is_crop_group_shape(Suit::Blueberry, mask(&[0, 4])));
    assert!(is_crop_group_shape(Suit::Blueberry, mask(&[0, 8])));
    assert!(is_crop_group_shape(Suit::Blueberry, mask(&[2, 6])));
    assert!(is_crop_group_shape(Suit::Blueberry, mask(&[0, 2])));
    assert!(!is_crop_group_shape(Suit::Blueberry, mask(&[0, 1])));
    assert!(!is_crop_group_shape(Suit::Blueberry, mask(&[4, 7])));
    assert!(is_crop_group_shape(Suit::Blueberry, mask(&[2, 3])));
    assert!(!is_crop_group_shape(Suit::Blueberry, mask(&[0, 4, 8])));
}

#[test]
fn eggplant_ls() {
    assert!(is_crop_group_shape(Suit::Eggplant, mask(&[0, 1, 3])));
    assert!(is_crop_group_shape(Suit::Eggplant, mask(&[1, 3, 4])));
    assert!(is_crop_group_shape(Suit::Eggplant, mask(&[5, 7, 8])));
    assert!(!is_crop_group_shape(Suit::Eggplant, mask(&[0, 1, 2])));
    assert!(!is_crop_group_shape(Suit::Eggplant, mask(&[0, 4, 8])));
}
