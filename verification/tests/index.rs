use recency_cache::InsertionIndex;

#[test]
fn zero_is_the_first_stamp() {
    assert_eq!(<u8 as InsertionIndex>::ZERO, 0u8);
    assert_eq!(<u16 as InsertionIndex>::ZERO, 0u16);
    assert_eq!(<u32 as InsertionIndex>::ZERO, 0u32);
    assert_eq!(<u64 as InsertionIndex>::ZERO, 0u64);
    assert_eq!(<u128 as InsertionIndex>::ZERO, 0u128);
}

#[test]
fn max_is_the_widths_own() {
    assert_eq!(<u8 as InsertionIndex>::MAX, 255u8);
    assert_eq!(<u16 as InsertionIndex>::MAX, 65_535u16);
    assert_eq!(<u32 as InsertionIndex>::MAX, 4_294_967_295u32);
    assert_eq!(<u64 as InsertionIndex>::MAX, 18_446_744_073_709_551_615u64);
    assert_eq!(<u128 as InsertionIndex>::MAX, u128::MAX);
}

#[test]
fn increment_advances_by_one() {
    let mut a: u8 = 0;
    InsertionIndex::increment(&mut a);
    assert_eq!(a, 1);
    let mut b: u8 = 254;
    InsertionIndex::increment(&mut b);
    assert_eq!(b, 255);
    let mut c: u16 = 255;
    InsertionIndex::increment(&mut c);
    assert_eq!(c, 256);
    let mut d: u32 = 65_535;
    InsertionIndex::increment(&mut d);
    assert_eq!(d, 65_536);
    let mut e: u64 = 4_294_967_295;
    InsertionIndex::increment(&mut e);
    assert_eq!(e, 4_294_967_296);
    let mut f: u128 = 18_446_744_073_709_551_615;
    InsertionIndex::increment(&mut f);
    assert_eq!(f, 18_446_744_073_709_551_616);
}

#[test]
fn accommodates_up_to_max_and_no_further() {
    assert!(u8::accommodates(0));
    assert!(u8::accommodates(254));
    assert!(u8::accommodates(255));
    assert!(!u8::accommodates(256));
    assert!(!u8::accommodates(usize::MAX));
    assert!(u16::accommodates(65_535));
    assert!(!u16::accommodates(65_536));
    assert!(u32::accommodates(4_294_967_295));
    assert!(u64::accommodates(usize::MAX));
    assert!(u128::accommodates(usize::MAX));
}

#[test]
fn u32_accommodates_no_more_than_its_max() {
    let beyond = 4_294_967_296u64;
    if beyond <= usize::MAX as u64 {
        assert!(!u32::accommodates(beyond as usize));
    }
}

#[test]
fn precedes_is_strictly_less() {
    assert!(InsertionIndex::precedes(&1u8, &2u8));
    assert!(!InsertionIndex::precedes(&2u8, &2u8));
    assert!(!InsertionIndex::precedes(&3u8, &2u8));
    assert!(InsertionIndex::precedes(&0u128, &u128::MAX));
    assert!(!InsertionIndex::precedes(&u64::MAX, &0u64));
    assert!(InsertionIndex::precedes(&255u16, &256u16));
    assert!(InsertionIndex::precedes(&65_535u32, &65_536u32));
}
