//! Decoding and encoding of the stage-dump format.
//!
//! Layout, little-endian. Planes: 16-byte header `magic(4) dtype(4) w(4)
//! h(4)` followed by `w*h` elements. Record files: `u32 count` then `count`
//! records of `n_fields` `i32`s. Reading the files is the caller's part;
//! these functions decode their bytes.

use vstd::prelude::*;
use crate::image::Plane;

verus! {

/// File magic, `b"CCTD"`.
pub const MAGIC: [u8; 4] = [0x43, 0x43, 0x54, 0x44];

/// Element type of a dumped plane.
#[derive(Clone, Copy, Debug, PartialEq, Eq, Structural)]
pub enum DType {
    /// Code 1.
    U8,
    /// Code 2.
    I16,
    /// Code 3.
    I32,
    /// Code 4.
    F32,
}

/// Why a dump could not be decoded.
#[derive(Clone, Copy, Debug, PartialEq, Eq, Structural)]
pub enum RefDataError {
    /// Fewer than 16 bytes: no plane header.
    ShortHeader,
    /// The header does not start with [`MAGIC`].
    BadMagic,
    /// The dtype code is not 1..=4.
    BadDType,
    /// Not a `u8` plane of `w * h` bytes.
    NotU8Plane,
    /// Not an `i16` plane of `w * h * 2` bytes.
    NotI16Plane,
    /// Fewer than 4 bytes: no record count.
    ShortFile,
    /// The body is not `count * n_fields * 4` bytes.
    RecordSizeMismatch,
}

/// The dtype with code `c`, if any.
pub open spec fn dtype_of_code(c: int) -> Option<DType> {
    if c == 1 {
        Some(DType::U8)
    } else if c == 2 {
        Some(DType::I16)
    } else if c == 3 {
        Some(DType::I32)
    } else if c == 4 {
        Some(DType::F32)
    } else {
        None
    }
}

impl DType {
    /// The code of the dtype in the header.
    pub open spec fn code_spec(self) -> u32 {
        match self {
            DType::U8 => 1,
            DType::I16 => 2,
            DType::I32 => 3,
            DType::F32 => 4,
        }
    }

    /// The code of the dtype in the header.
    pub fn code(self) -> (c: u32)
        ensures
            c == self.code_spec(),
            dtype_of_code(c as int) == Some(self),
    {
        match self {
            DType::U8 => 1,
            DType::I16 => 2,
            DType::I32 => 3,
            DType::F32 => 4,
        }
    }
}

/// Little-endian `u32` at byte offset `i`.
pub open spec fn le_u32(s: Seq<u8>, i: int) -> int {
    s[i] + 256 * s[i + 1] + 65536 * s[i + 2] + 16777216 * s[i + 3]
}

/// Little-endian `i16` at byte offset `i`.
pub open spec fn le_i16(s: Seq<u8>, i: int) -> i16 {
    ((s[i] + 256 * s[i + 1]) as u16) as i16
}

/// Little-endian `i32` at byte offset `i`.
pub open spec fn le_i32(s: Seq<u8>, i: int) -> i32 {
    (le_u32(s, i) as u32) as i32
}

/// The decoded header and body of a plane dump, or why it has none.
pub open spec fn plane_raw_spec(b: Seq<u8>) -> Result<(DType, int, int, Seq<u8>), RefDataError> {
    if b.len() < 16 {
        Err(RefDataError::ShortHeader)
    } else if b.take(4) != MAGIC@ {
        Err(RefDataError::BadMagic)
    } else if dtype_of_code(le_u32(b, 4)) is None {
        Err(RefDataError::BadDType)
    } else {
        Ok((dtype_of_code(le_u32(b, 4))->Some_0, le_u32(b, 8), le_u32(b, 12), b.skip(16)))
    }
}

fn le_u32_at(b: &[u8], i: usize) -> (v: u32)
    requires
        i + 4 <= b@.len(),
    ensures
        v == le_u32(b@, i as int),
{
    b[i] as u32 + 256 * b[i + 1] as u32 + 65536 * b[i + 2] as u32 + 16777216 * b[i + 3] as u32
}

/// Split a plane dump into dtype, width, height and body bytes.
pub fn read_plane_raw(bytes: &[u8]) -> (r: Result<(DType, usize, usize, Vec<u8>), RefDataError>)
    ensures
        r is Err <==> plane_raw_spec(bytes@) is Err,
        r matches Err(e) ==> plane_raw_spec(bytes@) == Err::<(DType, int, int, Seq<u8>), RefDataError>(e),
        r matches Ok(t) ==> plane_raw_spec(bytes@) == Ok::<(DType, int, int, Seq<u8>), RefDataError>((t.0, t.1 as int, t.2 as int, t.3@)),
{
    if bytes.len() < 16 {
        return Err(RefDataError::ShortHeader);
    }
    if bytes[0] != MAGIC[0] || bytes[1] != MAGIC[1] || bytes[2] != MAGIC[2] || bytes[3] != MAGIC[3] {
        proof {
            if bytes@.take(4) == MAGIC@ {
                assert(bytes@.take(4)[0] == bytes@[0]);
                assert(bytes@.take(4)[1] == bytes@[1]);
                assert(bytes@.take(4)[2] == bytes@[2]);
                assert(bytes@.take(4)[3] == bytes@[3]);
            }
        }
        return Err(RefDataError::BadMagic);
    }
    assert(bytes@.take(4) =~= MAGIC@);
    let dt = le_u32_at(bytes, 4);
    let w = le_u32_at(bytes, 8) as usize;
    let h = le_u32_at(bytes, 12) as usize;
    let dtype = if dt == 1 {
        DType::U8
    } else if dt == 2 {
        DType::I16
    } else if dt == 3 {
        DType::I32
    } else if dt == 4 {
        DType::F32
    } else {
        return Err(RefDataError::BadDType);
    };
    let mut data: Vec<u8> = Vec::with_capacity(bytes.len() - 16);
    let mut i: usize = 16;
    while i < bytes.len()
        invariant
            16 <= i <= bytes@.len(),
            data@ == bytes@.subrange(16, i as int),
        decreases bytes@.len() - i,
    {
        data.push(bytes[i]);
        i = i + 1;
        assert(data@ =~= bytes@.subrange(16, i as int));
    }
    assert(data@ =~= bytes@.skip(16));
    Ok((dtype, w, h, data))
}

/// A `u8` plane from its dump.
pub fn read_u8_plane(bytes: &[u8]) -> (r: Result<Plane<u8>, RefDataError>)
    ensures
        plane_raw_spec(bytes@) matches Err(e) ==> r == Err::<Plane<u8>, RefDataError>(e),
        plane_raw_spec(bytes@) matches Ok(t) ==> {
            if t.0 == DType::U8 && t.3.len() == t.1 * t.2 {
                r matches Ok(p) && p.w == t.1 && p.h == t.2 && p.data@ == t.3 && p.wf()
            } else {
                r == Err::<Plane<u8>, RefDataError>(RefDataError::NotU8Plane)
            }
        },
{
    let (dt, w, h, data) = read_plane_raw(bytes)?;
    let dl = data.len();
    if dt != DType::U8 {
        return Err(RefDataError::NotU8Plane);
    }
    match w.checked_mul(h) {
        Some(n) => {
            if dl != n {
                return Err(RefDataError::NotU8Plane);
            }
            Ok(Plane::from_vec(w, h, data))
        },
        None => Err(RefDataError::NotU8Plane),
    }
}

/// An `i16` plane (little-endian elements) from its dump.
pub fn read_i16_plane(bytes: &[u8]) -> (r: Result<Plane<i16>, RefDataError>)
    ensures
        plane_raw_spec(bytes@) matches Err(e) ==> r == Err::<Plane<i16>, RefDataError>(e),
        plane_raw_spec(bytes@) matches Ok(t) ==> {
            if t.0 == DType::I16 && t.3.len() == t.1 * t.2 * 2 {
                r matches Ok(p) && p.w == t.1 && p.h == t.2 && p.wf() && forall|k: int|
                    0 <= k < t.1 * t.2 ==> #[trigger] p.data@[k] == le_i16(t.3, 2 * k)
            } else {
                r == Err::<Plane<i16>, RefDataError>(RefDataError::NotI16Plane)
            }
        },
{
    let (dt, w, h, data) = read_plane_raw(bytes)?;
    let dl = data.len();
    let n = match w.checked_mul(h) {
        Some(n) => n,
        None => {
            assert(w * h * 2 > usize::MAX) by (nonlinear_arith)
                requires w * h > usize::MAX;
            return Err(RefDataError::NotI16Plane);
        },
    };
    let n2 = match n.checked_mul(2) {
        Some(n2) => n2,
        None => {
            assert(w * h * 2 > usize::MAX) by (nonlinear_arith)
                requires n * 2 > usize::MAX, n == w * h;
            return Err(RefDataError::NotI16Plane);
        },
    };
    if dt != DType::I16 || dl != n2 {
        return Err(RefDataError::NotI16Plane);
    }
    let mut v: Vec<i16> = Vec::with_capacity(n);
    let mut k: usize = 0;
    while k < n
        invariant
            k <= n,
            data.len() == 2 * n,
            v@.len() == k,
            forall|kk: int| 0 <= kk < k ==> #[trigger] v@[kk] == le_i16(data@, 2 * kk),
        decreases n - k,
    {
        let x = (data[2 * k] as u16 + 256 * data[2 * k + 1] as u16) as i16;
        v.push(x);
        k = k + 1;
    }
    Ok(Plane::from_vec(w, h, v))
}

/// Records of a record dump: `count` records of `n_fields` little-endian
/// `i32`s each.
pub open spec fn records_spec(b: Seq<u8>, n_fields: int) -> Result<Seq<Seq<i32>>, RefDataError> {
    if b.len() < 4 {
        Err(RefDataError::ShortFile)
    } else if b.len() - 4 != le_u32(b, 0) * n_fields * 4 {
        Err(RefDataError::RecordSizeMismatch)
    } else {
        Ok(Seq::new(le_u32(b, 0) as nat, |k: int| Seq::new(n_fields as nat, |j: int| le_i32(b, 4 + 4 * (k * n_fields + j)))))
    }
}

/// Decode a record dump.
pub fn read_i32_records(bytes: &[u8], n_fields: usize) -> (r: Result<Vec<Vec<i32>>, RefDataError>)
    requires
        n_fields > 0 || bytes@.len() != 4,
    ensures
        r is Err <==> records_spec(bytes@, n_fields as int) is Err,
        r matches Err(e) ==> records_spec(bytes@, n_fields as int) == Err::<Seq<Seq<i32>>, RefDataError>(e),
        r matches Ok(recs) ==> records_spec(bytes@, n_fields as int) matches Ok(s) && recs@.len() == s.len()
            && forall|k: int| 0 <= k < s.len() ==> #[trigger] recs@[k]@ == s[k],
{
    if bytes.len() < 4 {
        return Err(RefDataError::ShortFile);
    }
    let count = le_u32_at(bytes, 0) as usize;
    let body_len = bytes.len() - 4;
    let total: usize = if count == 0 {
        0
    } else {
        let rec_bytes = match n_fields.checked_mul(4) {
            Some(x) => x,
            None => {
                assert(le_u32(bytes@, 0) * n_fields * 4 != body_len) by (nonlinear_arith)
                    requires
                        n_fields * 4 > usize::MAX,
                        body_len <= usize::MAX,
                        le_u32(bytes@, 0) == count,
                        count >= 1;
                return Err(RefDataError::RecordSizeMismatch);
            },
        };
        match count.checked_mul(rec_bytes) {
            Some(x) => x,
            None => {
                assert(le_u32(bytes@, 0) * n_fields * 4 != body_len) by (nonlinear_arith)
                    requires
                        count * rec_bytes > usize::MAX,
                        rec_bytes == n_fields * 4,
                        body_len <= usize::MAX,
                        le_u32(bytes@, 0) == count;
                return Err(RefDataError::RecordSizeMismatch);
            },
        }
    };
    assert(total == le_u32(bytes@, 0) * n_fields * 4) by (nonlinear_arith)
        requires
            count == 0 ==> total == 0,
            count != 0 ==> total == count * (n_fields * 4),
            le_u32(bytes@, 0) == count;
    if body_len != total {
        return Err(RefDataError::RecordSizeMismatch);
    }
    let ghost spec = records_spec(bytes@, n_fields as int)->Ok_0;
    let mut recs: Vec<Vec<i32>> = Vec::with_capacity(count);
    let mut k: usize = 0;
    while k < count
        invariant
            k <= count,
            n_fields > 0 || count == 0,
            count == le_u32(bytes@, 0),
            bytes@.len() == 4 + count * n_fields * 4,
            spec == records_spec(bytes@, n_fields as int)->Ok_0,
            records_spec(bytes@, n_fields as int) is Ok,
            recs@.len() == k,
            forall|kk: int| 0 <= kk < k ==> #[trigger] recs@[kk]@ == spec[kk],
        decreases count - k,
    {
        let mut rec: Vec<i32> = Vec::with_capacity(n_fields);
        let mut j: usize = 0;
        while j < n_fields
            invariant
                k < count,
                j <= n_fields,
                bytes.len() == 4 + count * n_fields * 4,
                rec@.len() == j,
                forall|jj: int| 0 <= jj < j ==> #[trigger] rec@[jj] == le_i32(bytes@, 4 + 4 * (k * n_fields + jj)),
            decreases n_fields - j,
        {
            assert(4 + 4 * (k * n_fields + j) + 4 <= 4 + count * n_fields * 4) by (nonlinear_arith)
                requires k < count, j < n_fields;
            let off = 4 + 4 * (k * n_fields + j);
            let x = le_u32_at(bytes, off) as i32;
            rec.push(x);
            j = j + 1;
        }
        proof {
            assert(rec@ =~= spec[k as int]);
        }
        recs.push(rec);
        k = k + 1;
    }
    Ok(recs)
}


/// Little-endian bytes of a `u32`.
pub open spec fn u32_le(v: u32) -> Seq<u8> {
    seq![(v % 256) as u8, ((v / 256) % 256) as u8, ((v / 65536) % 256) as u8, (v / 16777216) as u8]
}

/// Bytes of a plane header.
pub open spec fn header_spec(code: u32, w: u32, h: u32) -> Seq<u8> {
    MAGIC@ + u32_le(code) + u32_le(w) + u32_le(h)
}

/// Little-endian bytes of a sequence of `i32`s.
pub open spec fn i32s_le(v: Seq<i32>) -> Seq<u8>
    decreases v.len(),
{
    if v.len() == 0 {
        seq![]
    } else {
        i32s_le(v.drop_last()) + u32_le(v.last() as u32)
    }
}

/// Bytes of the records, one after the other.
pub open spec fn records_le(r: Seq<Seq<i32>>) -> Seq<u8>
    decreases r.len(),
{
    if r.len() == 0 {
        seq![]
    } else {
        records_le(r.drop_last()) + i32s_le(r.last())
    }
}

/// Bytes of a record dump.
pub open spec fn records_dump_spec(r: Seq<Seq<i32>>) -> Seq<u8> {
    u32_le(r.len() as u32) + records_le(r)
}

proof fn lemma_u32_le_decode(v: u32)
    ensures
        u32_le(v)[0] + 256 * u32_le(v)[1] + 65536 * u32_le(v)[2] + 16777216 * u32_le(v)[3] == v,
{
    let b0 = v % 256;
    let b1 = (v / 256) % 256;
    let b2 = (v / 65536) % 256;
    let b3 = v / 16777216;
    assert(b0 + 256 * b1 + 65536 * b2 + 16777216 * b3 == v) by (nonlinear_arith)
        requires
            b0 == v % 256,
            b1 == (v / 256) % 256,
            b2 == (v / 65536) % 256,
            b3 == v / 16777216,
            v < 0x1_0000_0000,
    {
        assert(v == 256 * (v / 256) + v % 256);
        assert(v / 256 == 256 * ((v / 256) / 256) + (v / 256) % 256);
        assert((v / 256) / 256 == v / 65536);
        assert(v / 65536 == 256 * ((v / 65536) / 256) + (v / 65536) % 256);
        assert((v / 65536) / 256 == v / 16777216);
    }
}

fn push_u32_le(out: &mut Vec<u8>, v: u32)
    ensures
        final(out)@ == old(out)@ + u32_le(v),
{
    out.push((v % 256) as u8);
    out.push(((v / 256) % 256) as u8);
    out.push(((v / 65536) % 256) as u8);
    out.push((v / 16777216) as u8);
    assert(out@ =~= old(out)@ + u32_le(v));
}

/// Header of a plane dump (`w` and `h` stored as `u32`, truncating).
pub fn encode_plane_header(dtype: DType, w: usize, h: usize) -> (out: Vec<u8>)
    ensures
        out@ == header_spec(dtype.code_spec(), w as u32, h as u32),
{
    let mut out: Vec<u8> = Vec::new();
    let mut k: usize = 0;
    while k < 4
        invariant
            k <= 4,
            out@ == MAGIC@.take(k as int),
        decreases 4 - k,
    {
        out.push(MAGIC[k]);
        k = k + 1;
        assert(out@ =~= MAGIC@.take(k as int));
    }
    assert(MAGIC@.take(4) =~= MAGIC@);
    push_u32_le(&mut out, dtype.code());
    push_u32_le(&mut out, w as u32);
    push_u32_le(&mut out, h as u32);
    out
}

/// Bytes of a record dump: the record count (as `u32`, truncating) and
/// every value of every record, little-endian.
pub fn encode_i32_records(recs: &[Vec<i32>]) -> (out: Vec<u8>)
    requires
        forall|k: int| 0 <= k < recs@.len() ==> 4 * (#[trigger] recs@[k])@.len() <= usize::MAX,
    ensures
        out@ == u32_le(recs@.len() as u32) + records_le(Seq::new(recs@.len(), |k: int| recs@[k]@)),
{
    let ghost rs = Seq::new(recs@.len(), |k: int| recs@[k]@);
    let mut out: Vec<u8> = Vec::new();
    push_u32_le(&mut out, recs.len() as u32);
    let mut k: usize = 0;
    while k < recs.len()
        invariant
            k <= recs@.len(),
            rs == Seq::new(recs@.len(), |kk: int| recs@[kk]@),
            out@ == u32_le(recs@.len() as u32) + records_le(rs.take(k as int)),
        decreases recs@.len() - k,
    {
        let r = &recs[k];
        let ghost before = out@;
        let mut j: usize = 0;
        while j < r.len()
            invariant
                j <= r@.len(),
                out@ == before + i32s_le(r@.take(j as int)),
            decreases r@.len() - j,
        {
            push_u32_le(&mut out, r[j] as u32);
            proof {
                assert(r@.take(j + 1).drop_last() =~= r@.take(j as int));
                assert(out@ =~= before + i32s_le(r@.take(j + 1)));
            }
            j = j + 1;
        }
        proof {
            assert(r@.take(r@.len() as int) =~= r@);
            assert(rs.take(k + 1).drop_last() =~= rs.take(k as int));
            assert(rs[k as int] == r@);
            assert(out@ =~= u32_le(recs@.len() as u32) + records_le(rs.take(k + 1)));
        }
        k = k + 1;
    }
    proof {
        assert(rs.take(recs@.len() as int) =~= rs);
    }
    out
}

/// The bytes of `v`, two per value, little-endian.
pub open spec fn i16s_le(v: Seq<i16>) -> Seq<u8> {
    Seq::new(
        (2 * v.len()) as nat,
        |j: int|
            if j % 2 == 0 {
                ((v[j / 2] as u16) % 256) as u8
            } else {
                ((v[j / 2] as u16) / 256) as u8
            },
    )
}

/// Append the body of a `u8` plane dump: the bytes themselves.
pub fn push_u8_body(out: &mut Vec<u8>, data: &[u8])
    ensures
        final(out)@ == old(out)@ + data@,
{
    let mut k: usize = 0;
    while k < data.len()
        invariant
            k <= data@.len(),
            out@ == old(out)@ + data@.take(k as int),
        decreases data@.len() - k,
    {
        out.push(data[k]);
        k = k + 1;
        assert(out@ =~= old(out)@ + data@.take(k as int));
    }
    assert(data@.take(data@.len() as int) =~= data@);
}

/// Append the body of an `i16` plane dump: each value little-endian.
pub fn push_i16_body(out: &mut Vec<u8>, data: &[i16])
    ensures
        final(out)@ == old(out)@ + i16s_le(data@),
{
    let mut k: usize = 0;
    while k < data.len()
        invariant
            k <= data@.len(),
            out@ == old(out)@ + i16s_le(data@.take(k as int)),
        decreases data@.len() - k,
    {
        let u = data[k] as u16;
        out.push((u % 256) as u8);
        out.push((u / 256) as u8);
        k = k + 1;
        assert(out@ =~= old(out)@ + i16s_le(data@.take(k as int)));
    }
    assert(data@.take(data@.len() as int) =~= data@);
}

/// Append the body of an `i32` plane dump: each value little-endian.
pub fn push_i32_body(out: &mut Vec<u8>, data: &[i32])
    ensures
        final(out)@ == old(out)@ + i32s_le(data@),
{
    let mut k: usize = 0;
    while k < data.len()
        invariant
            k <= data@.len(),
            out@ == old(out)@ + i32s_le(data@.take(k as int)),
        decreases data@.len() - k,
    {
        push_u32_le(out, data[k] as u32);
        proof {
            assert(data@.take(k + 1).drop_last() =~= data@.take(k as int));
        }
        k = k + 1;
        assert(out@ =~= old(out)@ + i32s_le(data@.take(k as int)));
    }
    assert(data@.take(data@.len() as int) =~= data@);
}

/// A `u8` plane written as a dump (header, then its bytes) reads back as
/// the same plane: a `u8` dump of `w x h` with exactly that body.
pub proof fn lemma_u8_plane_roundtrip(w: u32, h: u32, data: Seq<u8>)
    requires
        data.len() == w * h,
    ensures
        plane_raw_spec(header_spec(DType::U8.code_spec(), w, h) + data) == Ok::<(DType, int, int, Seq<u8>), RefDataError>((DType::U8, w as int, h as int, data)),
        data.len() == w as int * h as int,
{
    lemma_plane_dump_roundtrip(DType::U8, w, h, data);
}

/// An `i16` plane written as a dump (header, then each value
/// little-endian) reads back as the same plane: an `i16` dump of `w x h`
/// whose body has `2 * w * h` bytes and decodes to each value in turn.
pub proof fn lemma_i16_plane_roundtrip(w: u32, h: u32, data: Seq<i16>)
    requires
        data.len() == w * h,
    ensures
        plane_raw_spec(header_spec(DType::I16.code_spec(), w, h) + i16s_le(data)) == Ok::<(DType, int, int, Seq<u8>), RefDataError>((DType::I16, w as int, h as int, i16s_le(data))),
        i16s_le(data).len() == w as int * h as int * 2,
        forall|k: int| 0 <= k < w as int * h as int ==> #[trigger] le_i16(i16s_le(data), 2 * k) == data[k],
{
    lemma_plane_dump_roundtrip(DType::I16, w, h, i16s_le(data));
    assert forall|k: int| 0 <= k < w as int * h as int implies #[trigger] le_i16(i16s_le(data), 2 * k) == data[k] by {
        let b = i16s_le(data);
        assert((2 * k) % 2 == 0 && (2 * k) / 2 == k);
        assert((2 * k + 1) % 2 == 1 && (2 * k + 1) / 2 == k);
        let v = data[k];
        let lo = b[2 * k];
        let hi = b[2 * k + 1];
        assert(lo == ((v as u16) % 256) as u8);
        assert(hi == ((v as u16) / 256) as u8);
        assert(((lo as int + 256 * hi as int) as u16) as i16 == v) by (bit_vector)
            requires lo == ((v as u16) % 256) as u8, hi == ((v as u16) / 256) as u8;
    }
}

/// Reading a plane dump gives back what its header says and the body that
/// follows it.
pub proof fn lemma_plane_dump_roundtrip(dtype: DType, w: u32, h: u32, body: Seq<u8>)
    ensures
        plane_raw_spec(header_spec(dtype.code_spec(), w, h) + body) == Ok::<(DType, int, int, Seq<u8>), RefDataError>((dtype, w as int, h as int, body)),
{
    let b = header_spec(dtype.code_spec(), w, h) + body;
    lemma_u32_le_decode(dtype.code_spec());
    lemma_u32_le_decode(w);
    lemma_u32_le_decode(h);
    assert(b.take(4) =~= MAGIC@);
    assert(b[4] == u32_le(dtype.code_spec())[0]);
    assert(b[5] == u32_le(dtype.code_spec())[1]);
    assert(b[6] == u32_le(dtype.code_spec())[2]);
    assert(b[7] == u32_le(dtype.code_spec())[3]);
    assert(b[8] == u32_le(w)[0]);
    assert(b[9] == u32_le(w)[1]);
    assert(b[10] == u32_le(w)[2]);
    assert(b[11] == u32_le(w)[3]);
    assert(b[12] == u32_le(h)[0]);
    assert(b[13] == u32_le(h)[1]);
    assert(b[14] == u32_le(h)[2]);
    assert(b[15] == u32_le(h)[3]);
    assert(b.skip(16) =~= body);
}


proof fn lemma_i32s_le(v: Seq<i32>)
    ensures
        i32s_le(v).len() == 4 * v.len(),
        forall|j: int, t: int| 0 <= j < v.len() && 0 <= t < 4 ==> #[trigger] i32s_le(v)[4 * j + t] == u32_le(v[j] as u32)[t],
    decreases v.len(),
{
    if v.len() > 0 {
        let pre = v.drop_last();
        lemma_i32s_le(pre);
        assert forall|j: int, t: int| 0 <= j < v.len() && 0 <= t < 4 implies #[trigger] i32s_le(v)[4 * j + t] == u32_le(v[j] as u32)[t] by {
            if j < pre.len() {
                assert(pre[j] == v[j]);
                assert(i32s_le(pre)[4 * j + t] == u32_le(pre[j] as u32)[t]);
            }
        }
    }
}

proof fn lemma_records_le(r: Seq<Seq<i32>>, n: int)
    requires
        n >= 0,
        forall|k: int| 0 <= k < r.len() ==> (#[trigger] r[k]).len() == n,
    ensures
        records_le(r).len() == 4 * n * r.len(),
        forall|k: int, j: int, t: int|
            0 <= k < r.len() && 0 <= j < n && 0 <= t < 4 ==> #[trigger] records_le(r)[4 * (k * n + j) + t] == u32_le(r[k][j] as u32)[t],
    decreases r.len(),
{
    if r.len() > 0 {
        let pre = r.drop_last();
        assert forall|k: int| 0 <= k < pre.len() implies (#[trigger] pre[k]).len() == n by {
            assert(pre[k] == r[k]);
        }
        lemma_records_le(pre, n);
        lemma_i32s_le(r.last());
        assert(4 * n * pre.len() + 4 * n == 4 * n * r.len()) by (nonlinear_arith)
            requires pre.len() + 1 == r.len();
        assert forall|k: int, j: int, t: int|
            0 <= k < r.len() && 0 <= j < n && 0 <= t < 4 implies #[trigger] records_le(r)[4 * (k * n + j) + t] == u32_le(r[k][j] as u32)[t] by {
            if k < pre.len() {
                assert(pre[k] == r[k]);
                assert(4 * (k * n + j) + t < 4 * n * pre.len()) by (nonlinear_arith)
                    requires 0 <= k < pre.len(), 0 <= j < n, 0 <= t < 4;
                assert(records_le(pre)[4 * (k * n + j) + t] == u32_le(pre[k][j] as u32)[t]);
            } else {
                assert(4 * (k * n + j) + t == 4 * n * pre.len() + (4 * j + t)) by (nonlinear_arith)
                    requires k == pre.len();
                assert(i32s_le(r.last())[4 * j + t] == u32_le(r.last()[j] as u32)[t]);
                assert(r.last() == r[k]);
            }
        }
    }
}

/// Reading a record dump gives back the records that were written, when
/// every record has `n_fields` values and there are at most `u32::MAX` of
/// them.
pub proof fn lemma_records_dump_roundtrip(r: Seq<Seq<i32>>, n_fields: int)
    requires
        n_fields >= 0,
        r.len() <= u32::MAX,
        forall|k: int| 0 <= k < r.len() ==> (#[trigger] r[k]).len() == n_fields,
    ensures
        records_spec(records_dump_spec(r), n_fields) == Ok::<Seq<Seq<i32>>, RefDataError>(r),
{
    let b = records_dump_spec(r);
    let len = r.len() as u32;
    lemma_u32_le_decode(len);
    lemma_records_le(r, n_fields);
    assert(b[0] == u32_le(len)[0] && b[1] == u32_le(len)[1] && b[2] == u32_le(len)[2] && b[3] == u32_le(len)[3]);
    assert(le_u32(b, 0) == r.len());
    assert(b.len() - 4 == le_u32(b, 0) * n_fields * 4) by (nonlinear_arith)
        requires b.len() == 4 + 4 * n_fields * r.len(), le_u32(b, 0) == r.len();
    let out = Seq::new(le_u32(b, 0) as nat, |k: int| Seq::new(n_fields as nat, |j: int| le_i32(b, 4 + 4 * (k * n_fields + j))));
    assert forall|k: int| 0 <= k < r.len() implies #[trigger] out[k] == r[k] by {
        assert forall|j: int| 0 <= j < n_fields implies out[k][j] == r[k][j] by {
            let base = 4 + 4 * (k * n_fields + j);
            let v = r[k][j];
            assert(r[k].len() == n_fields);
            assert forall|t: int| 0 <= t < 4 implies #[trigger] b[base + t] == u32_le(v as u32)[t] by {
                assert(4 * (k * n_fields + j) + t < 4 * n_fields * r.len()) by (nonlinear_arith)
                    requires 0 <= k < r.len(), 0 <= j < n_fields, 0 <= t < 4;
                assert(records_le(r)[4 * (k * n_fields + j) + t] == u32_le(r[k][j] as u32)[t]);
                assert(b[base + t] == records_le(r)[4 * (k * n_fields + j) + t]);
            }
            assert(b[base + 0] == u32_le(v as u32)[0]);
            assert(b[base] == u32_le(v as u32)[0]);
            assert(b[base + 1] == u32_le(v as u32)[1]);
            assert(b[base + 2] == u32_le(v as u32)[2]);
            assert(b[base + 3] == u32_le(v as u32)[3]);
            lemma_u32_le_decode(v as u32);
            assert(le_u32(b, base) == v as u32);
            assert((v as u32) as i32 == v) by (bit_vector);
        }
        assert(out[k] =~= r[k]);
    }
    assert(out =~= r);
}

} // verus!
