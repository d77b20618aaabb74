use crate::error::Error;
use crate::types::Metrics;
use vstd::bytes::{
    lemma_auto_spec_u128_to_from_le_bytes, lemma_auto_spec_u16_to_from_le_bytes,
    lemma_auto_spec_u32_to_from_le_bytes, lemma_auto_spec_u64_to_from_le_bytes,
    spec_u128_to_le_bytes, spec_u16_to_le_bytes, spec_u32_from_le_bytes, spec_u32_to_le_bytes,
    spec_u64_to_le_bytes, u128_from_le_bytes, u128_to_le_bytes, u16_from_le_bytes,
    u16_to_le_bytes, u32_from_le_bytes, u32_to_le_bytes, u64_from_le_bytes, u64_to_le_bytes,
};
use vstd::prelude::*;
use vstd::slice::slice_subrange;

verus! {

/// A record of a flat file: a value with a fixed number of bytes that reads
/// back as it was written.
pub trait FixedRepr: Sized {
    /// Number of bytes of a record.
    spec fn spec_byte_size() -> nat;

    /// The bytes of a record.
    spec fn encoding(&self) -> Seq<u8>;

    /// Number of bytes of a record.
    fn byte_size() -> (n: usize)
        ensures
            n == Self::spec_byte_size(),
            n > 0,
    ;

    /// Appends the bytes of the record.
    fn serialize(&self, out: &mut Vec<u8>)
        ensures
            final(out)@ == old(out)@ + self.encoding(),
            self.encoding().len() == Self::spec_byte_size(),
    ;

    /// The record that the bytes stand for.
    fn deserialize(bytes: &[u8]) -> (r: Self)
        requires
            bytes@.len() == Self::spec_byte_size(),
        ensures
            r.encoding() == bytes@,
    ;
}

/// Appends bytes to a buffer.
fn append_bytes(out: &mut Vec<u8>, bytes: &Vec<u8>)
    ensures
        final(out)@ == old(out)@ + bytes@,
{
    for i in 0..bytes.len()
        invariant
            out@ == old(out)@ + bytes@.take(i as int),
    {
        out.push(bytes[i]);
        assert(bytes@.take(i + 1) =~= bytes@.take(i as int).push(bytes@[i as int]));
    }
    assert(bytes@.take(bytes@.len() as int) =~= bytes@);
}

impl FixedRepr for u16 {
    open spec fn spec_byte_size() -> nat {
        2
    }

    open spec fn encoding(&self) -> Seq<u8> {
        spec_u16_to_le_bytes(*self)
    }

    fn byte_size() -> (n: usize) {
        2
    }

    fn serialize(&self, out: &mut Vec<u8>) {
        let bytes = u16_to_le_bytes(*self);
        append_bytes(out, &bytes);
    }

    fn deserialize(bytes: &[u8]) -> (r: Self) {
        proof {
            lemma_auto_spec_u16_to_from_le_bytes();
        }
        u16_from_le_bytes(bytes)
    }
}

impl FixedRepr for u32 {
    open spec fn spec_byte_size() -> nat {
        4
    }

    open spec fn encoding(&self) -> Seq<u8> {
        spec_u32_to_le_bytes(*self)
    }

    fn byte_size() -> (n: usize) {
        4
    }

    fn serialize(&self, out: &mut Vec<u8>) {
        let bytes = u32_to_le_bytes(*self);
        append_bytes(out, &bytes);
    }

    fn deserialize(bytes: &[u8]) -> (r: Self) {
        proof {
            lemma_auto_spec_u32_to_from_le_bytes();
        }
        u32_from_le_bytes(bytes)
    }
}

impl FixedRepr for u64 {
    open spec fn spec_byte_size() -> nat {
        8
    }

    open spec fn encoding(&self) -> Seq<u8> {
        spec_u64_to_le_bytes(*self)
    }

    fn byte_size() -> (n: usize) {
        8
    }

    fn serialize(&self, out: &mut Vec<u8>) {
        proof {
            lemma_auto_spec_u64_to_from_le_bytes();
        }
        let bytes = u64_to_le_bytes(*self);
        append_bytes(out, &bytes);
    }

    fn deserialize(bytes: &[u8]) -> (r: Self) {
        proof {
            lemma_auto_spec_u64_to_from_le_bytes();
        }
        u64_from_le_bytes(bytes)
    }
}

impl FixedRepr for u128 {
    open spec fn spec_byte_size() -> nat {
        16
    }

    open spec fn encoding(&self) -> Seq<u8> {
        spec_u128_to_le_bytes(*self)
    }

    fn byte_size() -> (n: usize) {
        16
    }

    fn serialize(&self, out: &mut Vec<u8>) {
        proof {
            lemma_auto_spec_u128_to_from_le_bytes();
        }
        let bytes = u128_to_le_bytes(*self);
        append_bytes(out, &bytes);
    }

    fn deserialize(bytes: &[u8]) -> (r: Self) {
        proof {
            lemma_auto_spec_u128_to_from_le_bytes();
        }
        u128_from_le_bytes(bytes)
    }
}

/// The bytes of the first `n` values of a record of the metrics tables.
pub open spec fn metrics_bytes(values: Seq<u32>, n: nat) -> Seq<u8>
    decreases n,
{
    if n == 0 {
        Seq::empty()
    } else {
        metrics_bytes(values, (n - 1) as nat) + spec_u32_to_le_bytes(values[n - 1])
    }
}

/// The bytes of the first values of a record: four per value.
pub proof fn lemma_metrics_bytes_len(values: Seq<u32>, n: nat)
    ensures
        metrics_bytes(values, n).len() == 4 * n,
    decreases n,
{
    lemma_auto_spec_u32_to_from_le_bytes();
    if n > 0 {
        lemma_metrics_bytes_len(values, (n - 1) as nat);
    }
}

/// Records whose first values have the same bytes have the same first values.
pub proof fn lemma_metrics_bytes_injective(a: Seq<u32>, b: Seq<u32>, n: nat)
    requires
        metrics_bytes(a, n) == metrics_bytes(b, n),
    ensures
        forall|i: int| 0 <= i < n ==> a[i] == b[i],
    decreases n,
{
    lemma_auto_spec_u32_to_from_le_bytes();
    if n > 0 {
        let pa = metrics_bytes(a, (n - 1) as nat);
        let pb = metrics_bytes(b, (n - 1) as nat);
        lemma_metrics_bytes_len(a, (n - 1) as nat);
        lemma_metrics_bytes_len(b, (n - 1) as nat);
        let ea = spec_u32_to_le_bytes(a[n - 1]);
        let eb = spec_u32_to_le_bytes(b[n - 1]);
        assert(pa =~= (pa + ea).subrange(0, 4 * (n - 1)));
        assert(pb =~= (pb + eb).subrange(0, 4 * (n - 1)));
        assert(ea =~= (pa + ea).subrange(4 * (n - 1), 4 * n as int));
        assert(eb =~= (pb + eb).subrange(4 * (n - 1), 4 * n as int));
        assert(spec_u32_from_le_bytes(ea) == a[n - 1]);
        assert(spec_u32_from_le_bytes(eb) == b[n - 1]);
        lemma_metrics_bytes_injective(a, b, (n - 1) as nat);
    }
}

impl FixedRepr for Metrics {
    open spec fn spec_byte_size() -> nat {
        344
    }

    open spec fn encoding(&self) -> Seq<u8> {
        metrics_bytes(self.values@, 86)
    }

    fn byte_size() -> (n: usize) {
        344
    }

    fn serialize(&self, out: &mut Vec<u8>) {
        assert(out@ + metrics_bytes(self.values@, 0) =~= out@);
        for i in 0..86usize
            invariant
                out@ == old(out)@ + metrics_bytes(self.values@, i as nat),
        {
            let ghost before = out@;
            self.values[i].serialize(out);
            assert(out@ =~= old(out)@ + metrics_bytes(self.values@, (i + 1) as nat));
        }
        proof {
            lemma_metrics_bytes_len(self.values@, 86);
        }
    }

    fn deserialize(bytes: &[u8]) -> (r: Self) {
        let mut values = [0u32; 86];
        assert(bytes@.take(0) =~= metrics_bytes(values@, 0));
        for i in 0..86usize
            invariant
                bytes@.len() == 344,
                bytes@.take(4 * i) == metrics_bytes(values@, i as nat),
        {
            let ghost before = values@;
            let chunk = slice_subrange(bytes, 4 * i, 4 * i + 4);
            let v = <u32 as FixedRepr>::deserialize(chunk);
            values[i] = v;
            proof {
                lemma_metrics_bytes_prefix(before, values@, i as nat);
                assert(bytes@.take(4 * (i + 1)) =~= bytes@.take(4 * i) + chunk@);
            }
        }
        assert(bytes@.take(344) =~= bytes@);
        Metrics { values }
    }
}

/// The bytes of the first values of a record depend on these values only.
pub proof fn lemma_metrics_bytes_prefix(a: Seq<u32>, b: Seq<u32>, n: nat)
    requires
        forall|i: int| 0 <= i < n ==> a[i] == b[i],
    ensures
        metrics_bytes(a, n) == metrics_bytes(b, n),
    decreases n,
{
    if n > 0 {
        lemma_metrics_bytes_prefix(a, b, (n - 1) as nat);
    }
}

/// Number of records of a file of a given length, where the length is a
/// multiple of the record size.
pub fn record_count<T: FixedRepr>(file_size: usize) -> (r: Result<usize, Error>)
    ensures
        match r {
            Ok(len) => file_size == len * T::spec_byte_size(),
            Err(e) => e == Error::RecordSizeMismatch && file_size as nat % T::spec_byte_size() != 0,
        },
{
    let size = T::byte_size();
    if file_size % size != 0 {
        return Err(Error::RecordSizeMismatch);
    }
    let len = file_size / size;
    assert(file_size == len * size) by (nonlinear_arith)
        requires
            len == file_size / size,
            file_size % size == 0,
            size > 0,
    ;
    Ok(len)
}

/// Position in the file of the record to read or to overwrite.
pub fn record_offset<T: FixedRepr>(index: usize, len: usize) -> (r: Result<u64, Error>)
    requires
        len * T::spec_byte_size() <= u64::MAX,
    ensures
        match r {
            Ok(offset) => index < len && offset == index * T::spec_byte_size(),
            Err(e) => e == Error::IndexOutOfBounds && index >= len,
        },
{
    if index >= len {
        return Err(Error::IndexOutOfBounds);
    }
    let size = T::byte_size();
    assert(index * size <= len * size) by (nonlinear_arith)
        requires
            index < len,
            size > 0,
    ;
    Ok((index as u64) * (size as u64))
}

/// Position in the file and number of the records of a range to read.
pub fn range_offset<T: FixedRepr>(start: usize, end: usize, len: usize) -> (r: Result<
    (u64, usize),
    Error,
>)
    requires
        len * T::spec_byte_size() <= u64::MAX,
    ensures
        match r {
            Ok((offset, count)) => start <= end <= len && offset == start * T::spec_byte_size()
                && count == end - start,
            Err(e) => e == Error::InvalidRange && (start > end || end > len),
        },
{
    if start > end || end > len {
        return Err(Error::InvalidRange);
    }
    let size = T::byte_size();
    assert(start * size <= len * size) by (nonlinear_arith)
        requires
            start <= len,
            size > 0,
    ;
    Ok(((start as u64) * (size as u64), end - start))
}

/// Position in the file of a run of records to overwrite, if there is
/// anything to write.
pub fn set_range_offset<T: FixedRepr>(start: usize, count: usize, len: usize) -> (r: Result<
    Option<u64>,
    Error,
>)
    requires
        len * T::spec_byte_size() <= u64::MAX,
    ensures
        match r {
            Ok(Some(offset)) => start + count <= len && count > 0 && offset == start
                * T::spec_byte_size(),
            Ok(None) => start + count <= len && count == 0,
            Err(e) => e == Error::RangeOutOfBounds && start + count > len,
        },
{
    if start > len || count > len - start {
        return Err(Error::RangeOutOfBounds);
    }
    if count == 0 {
        return Ok(None);
    }
    let size = T::byte_size();
    assert(start * size <= len * size) by (nonlinear_arith)
        requires
            start <= len,
            size > 0,
    ;
    Ok(Some((start as u64) * (size as u64)))
}

/// The bytes of a list of records, one after the other.
pub open spec fn records_bytes<T: FixedRepr>(items: Seq<T>) -> Seq<u8>
    decreases items.len(),
{
    if items.len() == 0 {
        Seq::empty()
    } else {
        records_bytes(items.drop_last()) + items.last().encoding()
    }
}

/// The bytes of a list of records, as a file holds them.
pub fn encode_records<T: FixedRepr>(items: &[T]) -> (bytes: Vec<u8>)
    ensures
        bytes@ == records_bytes(items@),
{
    let mut bytes: Vec<u8> = Vec::new();
    assert(items@.take(0) =~= Seq::empty());
    for i in 0..items.len()
        invariant
            bytes@ == records_bytes(items@.take(i as int)),
    {
        proof {
            assert(items@.take(i + 1).drop_last() == items@.take(i as int));
            assert(items@.take(i + 1).last() == items@[i as int]);
        }
        items[i].serialize(&mut bytes);
    }
    assert(items@.take(items@.len() as int) == items@);
    bytes
}

/// The records that the bytes of a file stand for.
pub fn decode_records<T: FixedRepr>(bytes: &[u8]) -> (r: Result<Vec<T>, Error>)
    ensures
        match r {
            Ok(items) => records_bytes(items@) == bytes@ && bytes@.len() == items@.len()
                * T::spec_byte_size(),
            Err(e) => e == Error::RecordSizeMismatch && bytes@.len() % T::spec_byte_size() != 0,
        },
{
    let size = T::byte_size();
    let len = match record_count::<T>(bytes.len()) {
        Ok(len) => len,
        Err(e) => {
            return Err(e);
        },
    };
    let mut items: Vec<T> = Vec::new();
    assert(bytes@.take(0) =~= records_bytes(items@));
    for i in 0..len
        invariant
            size == T::spec_byte_size(),
            size > 0,
            bytes@.len() == len * size,
            bytes@.len() <= usize::MAX,
            items@.len() == i,
            records_bytes(items@) == bytes@.take(i * size),
    {
        assert((i + 1) * size <= len * size && i * size + size == (i + 1) * size && 0 <= i * size) by (nonlinear_arith)
            requires
                0 <= i < len,
                size > 0,
        ;
        assert(len * size <= usize::MAX);
        let ghost before = items@;
        let chunk = slice_subrange(bytes, i * size, i * size + size);
        let item = T::deserialize(chunk);
        items.push(item);
        proof {
            assert(items@.drop_last() == before);
            assert(bytes@.take((i + 1) * size) =~= bytes@.take(i * size) + chunk@);
        }
    }
    assert(bytes@.take(len * size) =~= bytes@);
    Ok(items)
}

} // verus!
