use mahjong_dp::flat_file::{
    decode_records, encode_records, range_offset, record_count, record_offset, set_range_offset,
};
use mahjong_dp::{Error, FixedRepr, Metrics};

#[test]
fn integers_are_written_low_byte_first() {
    let mut out = vec![0xffu8];
    0x1234u16.serialize(&mut out);
    0x1234_5678u32.serialize(&mut out);
    assert_eq!(out, vec![0xff, 0x34, 0x12, 0x78, 0x56, 0x34, 0x12]);
    let mut out = vec![];
    0x0102_0304_0506_0708u64.serialize(&mut out);
    assert_eq!(out, vec![8, 7, 6, 5, 4, 3, 2, 1]);
    let mut out = vec![];
    1u128.serialize(&mut out);
    assert_eq!(out.len(), 16);
    assert_eq!(out[0], 1);
    assert_eq!(<u16 as FixedRepr>::byte_size(), 2);
    assert_eq!(<u32 as FixedRepr>::byte_size(), 4);
    assert_eq!(<u64 as FixedRepr>::byte_size(), 8);
    assert_eq!(<u128 as FixedRepr>::byte_size(), 16);
    assert_eq!(<Metrics as FixedRepr>::byte_size(), 344);
}

#[test]
fn records_read_back_as_written() {
    assert_eq!(<u16 as FixedRepr>::deserialize(&[0x34, 0x12]), 0x1234);
    assert_eq!(<u32 as FixedRepr>::deserialize(&[0x78, 0x56, 0x34, 0x12]), 0x1234_5678);
    assert_eq!(<u64 as FixedRepr>::deserialize(&[8, 7, 6, 5, 4, 3, 2, 1]), 0x0102_0304_0506_0708);
    let v = 41523313845938407018380933934574615769u128;
    let mut out = vec![];
    v.serialize(&mut out);
    assert_eq!(<u128 as FixedRepr>::deserialize(&out), v);
    let mut m = Metrics::new();
    for d in 0..86 {
        m.values[d] = 0x0100_0000 * d as u32 + 7;
    }
    let mut out = vec![];
    m.serialize(&mut out);
    assert_eq!(out.len(), 344);
    assert_eq!(&out[4..8], &[7, 0, 0, 1]);
    assert_eq!(<Metrics as FixedRepr>::deserialize(&out), m);
}

#[test]
fn lists_of_records_are_written_one_after_the_other() {
    let items = vec![1u32, 0x0203, 0xffff_ffff];
    let bytes = encode_records(&items);
    assert_eq!(bytes, vec![1, 0, 0, 0, 3, 2, 0, 0, 255, 255, 255, 255]);
    assert_eq!(decode_records::<u32>(&bytes), Ok(items));
    assert_eq!(decode_records::<u32>(&[]), Ok(vec![]));
    assert_eq!(decode_records::<u16>(&bytes), Ok(vec![1, 0, 0x0203, 0, 0xffff, 0xffff]));
}

#[test]
fn a_file_that_ends_within_a_record_is_refused() {
    assert_eq!(decode_records::<u32>(&[1, 2, 3, 4, 5]), Err(Error::RecordSizeMismatch));
    assert_eq!(record_count::<u32>(12), Ok(3));
    assert_eq!(record_count::<u32>(0), Ok(0));
    assert_eq!(record_count::<u32>(13), Err(Error::RecordSizeMismatch));
    assert_eq!(record_count::<Metrics>(344 * 5), Ok(5));
    assert_eq!(record_count::<Metrics>(344 * 5 + 4), Err(Error::RecordSizeMismatch));
    assert_eq!(record_count::<u128>(8), Err(Error::RecordSizeMismatch));
}

#[test]
fn offsets_of_records() {
    assert_eq!(record_offset::<u32>(0, 10), Ok(0));
    assert_eq!(record_offset::<u32>(9, 10), Ok(36));
    assert_eq!(record_offset::<u32>(10, 10), Err(Error::IndexOutOfBounds));
    assert_eq!(record_offset::<Metrics>(5 * 18 + 2, 1000), Ok(92 * 344));
    assert_eq!(record_offset::<u128>(0, 0), Err(Error::IndexOutOfBounds));
}

#[test]
fn offsets_of_ranges() {
    assert_eq!(range_offset::<u32>(90, 108, 200), Ok((360, 18)));
    assert_eq!(range_offset::<u32>(0, 0, 0), Ok((0, 0)));
    assert_eq!(range_offset::<u32>(200, 200, 200), Ok((800, 0)));
    assert_eq!(range_offset::<u32>(5, 4, 200), Err(Error::InvalidRange));
    assert_eq!(range_offset::<u32>(0, 201, 200), Err(Error::InvalidRange));
}

#[test]
fn offsets_of_runs_to_overwrite() {
    assert_eq!(set_range_offset::<u64>(3, 2, 5), Ok(Some(24)));
    assert_eq!(set_range_offset::<u64>(3, 0, 5), Ok(None));
    assert_eq!(set_range_offset::<u64>(5, 0, 5), Ok(None));
    assert_eq!(set_range_offset::<u64>(3, 3, 5), Err(Error::RangeOutOfBounds));
    assert_eq!(set_range_offset::<u64>(6, 0, 5), Err(Error::RangeOutOfBounds));
    assert_eq!(set_range_offset::<u64>(1, usize::MAX, 5), Err(Error::RangeOutOfBounds));
}
