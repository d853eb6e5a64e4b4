//! The file format of quantised models: every tensor with one scale and one
//! signed byte per element.
//!
//! A file holds, with all integers little-endian:
//!
//! ```text
//! magic        4 bytes, SGQZ
//! version      1 byte
//! tensors      u32, and for each of them
//!   name       u32 length, and as many bytes of UTF-8
//!   dims       u32 number, and as many u64
//!   scale      the bits of a 32-bit floating-point number
//!   data       u64 length, and as many signed bytes
//! ```
//!
//! What follows the last tensor is ignored.
use crate::error::ErrorView;
use crate::error::SmolError;
use crate::list::copy_part;
use crate::text::less_text;
use crate::text::lemma_text_less_total;
use crate::text::lemma_text_less_trans;
use crate::text::text_less;
use vstd::bytes::lemma_auto_spec_u32_to_from_le_bytes;
use vstd::bytes::lemma_auto_spec_u64_to_from_le_bytes;
use vstd::bytes::spec_u32_from_le_bytes;
use vstd::bytes::spec_u32_to_le_bytes;
use vstd::bytes::spec_u64_from_le_bytes;
use vstd::bytes::spec_u64_to_le_bytes;
use vstd::bytes::u32_from_le_bytes;
use vstd::bytes::u32_to_le_bytes;
use vstd::bytes::u64_from_le_bytes;
use vstd::bytes::u64_to_le_bytes;
use vstd::prelude::*;
use vstd::string::*;
use vstd::utf8::*;

verus! {

/// The version that is written.
pub const FORMAT_VERSION: u8 = 1;

/// The first bytes of every file.
pub open spec fn magic() -> Seq<u8> {
    seq![0x53u8, 0x47u8, 0x51u8, 0x5Au8]
}

/// A quantised tensor. The scale is held by the bits of its 32-bit
/// floating-point form.
#[derive(Debug, Clone)]
pub struct QuantizedTensor {
    pub name: String,
    pub shape: Vec<u64>,
    pub scale: u32,
    pub data: Vec<i8>,
}

/// A quantised tensor as a mathematical value.
pub struct TensorView {
    pub name: Seq<char>,
    pub shape: Seq<u64>,
    pub scale: u32,
    pub data: Seq<i8>,
}

impl View for QuantizedTensor {
    type V = TensorView;

    open spec fn view(&self) -> TensorView {
        TensorView { name: self.name@, shape: self.shape@, scale: self.scale, data: self.data@ }
    }
}

/// The views of a list of tensors.
pub open spec fn tensor_views(v: Seq<QuantizedTensor>) -> Seq<TensorView> {
    v.map_values(|t: QuantizedTensor| t@)
}

/// Why a file cannot be read.
#[derive(Debug, Clone)]
pub enum FormatError {
    /// It does not start with the magic bytes.
    BadMagic,
    /// It ends too early.
    UnexpectedEnd,
    /// A name is not UTF-8; with the decoder's message.
    InvalidName(String),
}

/// Why a file cannot be read, as a mathematical value.
pub enum FormatErrorView {
    BadMagic,
    UnexpectedEnd,
    InvalidName(Seq<char>),
}

impl View for FormatError {
    type V = FormatErrorView;

    open spec fn view(&self) -> FormatErrorView {
        match self {
            FormatError::BadMagic => FormatErrorView::BadMagic,
            FormatError::UnexpectedEnd => FormatErrorView::UnexpectedEnd,
            FormatError::InvalidName(m) => FormatErrorView::InvalidName(m@),
        }
    }
}

/// The message of a format error.
pub open spec fn format_message(e: FormatErrorView) -> Seq<char> {
    match e {
        FormatErrorView::BadMagic => "bad magic (not a smolgpt quantized file)"@,
        FormatErrorView::UnexpectedEnd => "failed to fill whole buffer"@,
        FormatErrorView::InvalidName(m) => m,
    }
}

impl FormatError {
    /// The error of loading the file at `path`.
    pub fn loading(&self, path: &str) -> (e: SmolError)
        ensures
            e@ == ErrorView::Custom(
                "load_quantized_tensors: "@ + path@ + ": "@ + format_message(self@),
            ),
    {
        let mut m: String = "load_quantized_tensors: ".to_owned();
        m.append(path);
        m.append(": ");
        match self {
            FormatError::BadMagic => {
                m.append("bad magic (not a smolgpt quantized file)");
            },
            FormatError::UnexpectedEnd => {
                m.append("failed to fill whole buffer");
            },
            FormatError::InvalidName(why) => {
                m.append(why.as_str());
            },
        }
        SmolError::CustomError(m)
    }
}

/// The message with which the standard library rejects bytes as UTF-8.
pub uninterp spec fn utf8_error(bytes: Seq<u8>) -> Seq<char>;

/// `String::from_utf8`: the text that is encoded in the bytes, where they are
/// UTF-8, and otherwise the text of the error, which depends on the bytes
/// alone.
#[verifier::external_body]
fn text_from_utf8(bytes: Vec<u8>) -> (r: Result<String, String>)
    ensures
        r is Ok <==> valid_utf8(bytes@),
        r matches Ok(s) ==> s@ == decode_utf8(bytes@),
        r matches Err(m) ==> m@ == utf8_error(bytes@),
{
    match String::from_utf8(bytes) {
        Ok(s) => Ok(s),
        Err(e) => Err(e.to_string()),
    }
}

/// The byte that stands for a signed byte.
pub open spec fn byte_of(v: i8) -> u8 {
    if v >= 0 {
        v as u8
    } else {
        (v + 256) as u8
    }
}

/// The signed byte that a byte stands for.
pub open spec fn signed_of(b: u8) -> i8 {
    if b < 128 {
        b as i8
    } else {
        (b - 256) as i8
    }
}

/// The bytes of a list of dimensions.
pub open spec fn encoded_dims(shape: Seq<u64>) -> Seq<u8>
    decreases shape.len(),
{
    if shape.len() == 0 {
        seq![]
    } else {
        spec_u64_to_le_bytes(shape[0]) + encoded_dims(shape.skip(1))
    }
}

/// The bytes of a tensor.
pub open spec fn encoded_tensor(t: TensorView) -> Seq<u8> {
    let name = encode_utf8(t.name);
    spec_u32_to_le_bytes(name.len() as u32) + (name + (spec_u32_to_le_bytes(t.shape.len() as u32)
        + (encoded_dims(t.shape) + (spec_u32_to_le_bytes(t.scale) + (spec_u64_to_le_bytes(
        t.data.len() as u64,
    ) + t.data.map_values(|v: i8| byte_of(v)))))))
}

/// The bytes of a list of tensors.
pub open spec fn encoded_tensors(ts: Seq<TensorView>) -> Seq<u8>
    decreases ts.len(),
{
    if ts.len() == 0 {
        seq![]
    } else {
        encoded_tensor(ts[0]) + encoded_tensors(ts.skip(1))
    }
}

/// The bytes of a file.
pub open spec fn encoded_file(ts: Seq<TensorView>) -> Seq<u8> {
    magic() + (seq![FORMAT_VERSION] + (spec_u32_to_le_bytes(ts.len() as u32) + encoded_tensors(ts)))
}

/// The number at the start of `s`, and what follows it.
pub open spec fn parsed_u32(s: Seq<u8>) -> Option<(u32, Seq<u8>)> {
    if s.len() < 4 {
        None
    } else {
        Some((spec_u32_from_le_bytes(s.take(4)), s.skip(4)))
    }
}

/// The number at the start of `s`, and what follows it.
pub open spec fn parsed_u64(s: Seq<u8>) -> Option<(u64, Seq<u8>)> {
    if s.len() < 8 {
        None
    } else {
        Some((spec_u64_from_le_bytes(s.take(8)), s.skip(8)))
    }
}

/// The `n` dimensions at the start of `s`, and what follows them.
pub open spec fn parsed_dims(s: Seq<u8>, n: nat) -> Option<(Seq<u64>, Seq<u8>)>
    decreases n,
{
    if n == 0 {
        Some((seq![], s))
    } else {
        match parsed_u64(s) {
            None => None,
            Some((d, rest)) => match parsed_dims(rest, (n - 1) as nat) {
                None => None,
                Some((ds, rest)) => Some((seq![d] + ds, rest)),
            },
        }
    }
}

/// The scale, the length and the data of a tensor at the start of `s`, and what
/// follows them.
pub open spec fn parsed_payload(s: Seq<u8>) -> Option<(u32, Seq<i8>, Seq<u8>)> {
    match parsed_u32(s) {
        None => None,
        Some((scale, s)) => match parsed_u64(s) {
            None => None,
            Some((n, s)) => if s.len() < n {
                None
            } else {
                Some(
                    (
                        scale,
                        s.take(n as int).map_values(|b: u8| signed_of(b)),
                        s.skip(n as int),
                    ),
                )
            },
        },
    }
}

/// The tensor at the start of `s`, and what follows it.
pub open spec fn parsed_tensor(s: Seq<u8>) -> Result<(TensorView, Seq<u8>), FormatErrorView> {
    match parsed_u32(s) {
        None => Err(FormatErrorView::UnexpectedEnd),
        Some((n, s)) => if s.len() < n {
            Err(FormatErrorView::UnexpectedEnd)
        } else if !valid_utf8(s.take(n as int)) {
            Err(FormatErrorView::InvalidName(utf8_error(s.take(n as int))))
        } else {
            let name = decode_utf8(s.take(n as int));
            match parsed_u32(s.skip(n as int)) {
                None => Err(FormatErrorView::UnexpectedEnd),
                Some((k, s)) => match parsed_dims(s, k as nat) {
                    None => Err(FormatErrorView::UnexpectedEnd),
                    Some((shape, s)) => match parsed_payload(s) {
                        None => Err(FormatErrorView::UnexpectedEnd),
                        Some((scale, data, s)) => Ok((TensorView { name, shape, scale, data }, s)),
                    },
                },
            }
        },
    }
}

/// The `n` tensors at the start of `s`, and what follows them.
pub open spec fn parsed_tensors(s: Seq<u8>, n: nat) -> Result<
    (Seq<TensorView>, Seq<u8>),
    FormatErrorView,
>
    decreases n,
{
    if n == 0 {
        Ok((seq![], s))
    } else {
        match parsed_tensor(s) {
            Err(e) => Err(e),
            Ok((t, rest)) => match parsed_tensors(rest, (n - 1) as nat) {
                Err(e) => Err(e),
                Ok((ts, rest)) => Ok((seq![t] + ts, rest)),
            },
        }
    }
}

/// The tensors of a file.
pub open spec fn parsed_file(s: Seq<u8>) -> Result<Seq<TensorView>, FormatErrorView> {
    if s.len() < 4 {
        Err(FormatErrorView::UnexpectedEnd)
    } else if s.take(4) != magic() {
        Err(FormatErrorView::BadMagic)
    } else if s.len() < 5 {
        Err(FormatErrorView::UnexpectedEnd)
    } else {
        match parsed_u32(s.skip(5)) {
            None => Err(FormatErrorView::UnexpectedEnd),
            Some((n, s)) => match parsed_tensors(s, n as nat) {
                Err(e) => Err(e),
                Ok((ts, _)) => Ok(ts),
            },
        }
    }
}

/// Appends a byte.
pub fn write_u8(out: &mut Vec<u8>, v: u8)
    ensures
        final(out)@ == old(out)@ + seq![v],
{
    out.push(v);
    assert(out@ =~= old(out)@ + seq![v]);
}

fn write_bytes(out: &mut Vec<u8>, bytes: &Vec<u8>)
    ensures
        final(out)@ == old(out)@ + bytes@,
{
    let mut i: usize = 0;
    assert(out@ + bytes@.take(0) =~= out@);
    while i < bytes.len()
        invariant
            i <= bytes.len(),
            out@ == old(out)@ + bytes@.take(i as int),
        decreases bytes.len() - i,
    {
        out.push(bytes[i]);
        i += 1;
        assert(out@ =~= old(out)@ + bytes@.take(i as int));
    }
    assert(bytes@.take(i as int) =~= bytes@);
}

/// Appends a number.
pub fn write_u32(out: &mut Vec<u8>, v: u32)
    ensures
        final(out)@ == old(out)@ + spec_u32_to_le_bytes(v),
{
    let b: Vec<u8> = u32_to_le_bytes(v);
    write_bytes(out, &b);
}

/// Appends a number.
pub fn write_u64(out: &mut Vec<u8>, v: u64)
    ensures
        final(out)@ == old(out)@ + spec_u64_to_le_bytes(v),
{
    let b: Vec<u8> = u64_to_le_bytes(v);
    write_bytes(out, &b);
}

fn write_dims(out: &mut Vec<u8>, shape: &Vec<u64>)
    ensures
        final(out)@ == old(out)@ + encoded_dims(shape@),
{
    let mut i: usize = 0;
    assert(shape@.skip(0) =~= shape@);
    while i < shape.len()
        invariant
            i <= shape.len(),
            out@ + encoded_dims(shape@.skip(i as int)) == old(out)@ + encoded_dims(shape@),
        decreases shape.len() - i,
    {
        let ghost before_write = out@;
        write_u64(out, shape[i]);
        proof {
            let rest = shape@.skip(i as int);
            assert(rest.skip(1) =~= shape@.skip(i + 1));
            assert(out@ + encoded_dims(shape@.skip(i + 1)) =~= before_write + encoded_dims(rest));
        }
        i += 1;
    }
    proof {
        assert(shape@.skip(i as int) =~= Seq::<u64>::empty());
        assert(out@ + Seq::<u8>::empty() =~= out@);
    }
}

fn write_data(out: &mut Vec<u8>, data: &Vec<i8>)
    ensures
        final(out)@ == old(out)@ + data@.map_values(|v: i8| byte_of(v)),
{
    let ghost bytes = data@.map_values(|v: i8| byte_of(v));
    let mut i: usize = 0;
    assert(out@ + bytes.take(0) =~= out@);
    while i < data.len()
        invariant
            i <= data.len(),
            bytes == data@.map_values(|v: i8| byte_of(v)),
            out@ == old(out)@ + bytes.take(i as int),
        decreases data.len() - i,
    {
        let v: i8 = data[i];
        let b: u8 = if v >= 0 {
            v as u8
        } else {
            (v as i16 + 256) as u8
        };
        out.push(b);
        proof {
            assert(bytes[i as int] == b);
            assert(out@ =~= old(out)@ + bytes.take(i + 1));
        }
        i += 1;
    }
    assert(bytes.take(i as int) =~= bytes);
}

fn write_tensor(out: &mut Vec<u8>, t: &QuantizedTensor)
    ensures
        final(out)@ == old(out)@ + encoded_tensor(t@),
{
    broadcast use group_utf8_lib;

    let name: Vec<u8> = t.name.as_str().as_bytes_vec();
    #[verifier::truncate]
    let name_len: u32 = name.len() as u32;
    write_u32(out, name_len);
    write_bytes(out, &name);
    #[verifier::truncate]
    let dims: u32 = t.shape.len() as u32;
    write_u32(out, dims);
    write_dims(out, &t.shape);
    write_u32(out, t.scale);
    write_u64(out, t.data.len() as u64);
    write_data(out, &t.data);
    assert(out@ =~= old(out)@ + encoded_tensor(t@));
}

/// The bytes of a file that holds `tensors`, in the order in which they are
/// given.
pub fn encode_tensors(tensors: &Vec<QuantizedTensor>) -> (r: Vec<u8>)
    ensures
        r@ == encoded_file(tensor_views(tensors@)),
{
    let ghost ts = tensor_views(tensors@);
    let mut out: Vec<u8> = Vec::new();
    write_u8(&mut out, 0x53);
    write_u8(&mut out, 0x47);
    write_u8(&mut out, 0x51);
    write_u8(&mut out, 0x5A);
    assert(out@ =~= magic());
    write_u8(&mut out, FORMAT_VERSION);
    #[verifier::truncate]
    let n: u32 = tensors.len() as u32;
    write_u32(&mut out, n);
    let ghost head = out@;
    let mut i: usize = 0;
    assert(ts.skip(0) =~= ts);
    while i < tensors.len()
        invariant
            i <= tensors.len(),
            ts == tensor_views(tensors@),
            out@ + encoded_tensors(ts.skip(i as int)) == head + encoded_tensors(ts),
        decreases tensors.len() - i,
    {
        let ghost before_write = out@;
        write_tensor(&mut out, &tensors[i]);
        proof {
            let rest = ts.skip(i as int);
            assert(rest[0] == tensors@[i as int]@);
            assert(rest.skip(1) =~= ts.skip(i + 1));
            assert(out@ + encoded_tensors(ts.skip(i + 1)) =~= before_write + encoded_tensors(rest));
        }
        i += 1;
    }
    proof {
        assert(ts.skip(i as int) =~= Seq::<TensorView>::empty());
        assert(out@ + Seq::<u8>::empty() =~= out@);
        assert(out@ =~= encoded_file(ts));
    }
    out
}

/// Whether a file starts with the magic bytes.
pub fn looks_quantized(bytes: &Vec<u8>) -> (r: bool)
    ensures
        r == (bytes@.len() >= 4 && bytes@.take(4) == magic()),
{
    if bytes.len() < 4 {
        return false;
    }
    let r: bool = bytes[0] == 0x53 && bytes[1] == 0x47 && bytes[2] == 0x51 && bytes[3] == 0x5A;
    proof {
        let m = magic();
        assert(m[0] == 0x53 && m[1] == 0x47 && m[2] == 0x51 && m[3] == 0x5A);
        if r {
            assert(bytes@.take(4) =~= m);
        } else {
            assert(bytes@.take(4)[0] != m[0] || bytes@.take(4)[1] != m[1] || bytes@.take(4)[2]
                != m[2] || bytes@.take(4)[3] != m[3]);
        }
    }
    r
}

/// Reads a byte and moves on.
pub fn read_u8(bytes: &Vec<u8>, pos: &mut usize) -> (r: Option<u8>)
    requires
        *old(pos) <= bytes@.len(),
    ensures
        *final(pos) <= bytes@.len(),
        match r {
            Some(v) => *old(pos) < bytes@.len() && v == bytes@[*old(pos) as int] && *final(pos)
                == *old(pos) + 1,
            None => *old(pos) == bytes@.len() && *final(pos) == *old(pos),
        },
{
    if *pos == bytes.len() {
        return None;
    }
    let v: u8 = bytes[*pos];
    *pos = *pos + 1;
    Some(v)
}

/// Reads a number and moves on.
pub fn read_u32(bytes: &Vec<u8>, pos: &mut usize) -> (r: Option<u32>)
    requires
        *old(pos) <= bytes@.len(),
    ensures
        *final(pos) <= bytes@.len(),
        match r {
            Some(v) => parsed_u32(bytes@.skip(*old(pos) as int)) == Some(
                (v, bytes@.skip(*final(pos) as int)),
            ),
            None => parsed_u32(bytes@.skip(*old(pos) as int)) is None && *final(pos) == *old(pos),
        },
{
    if bytes.len() - *pos < 4 {
        return None;
    }
    let part: Vec<u8> = copy_part(bytes, *pos, *pos + 4);
    let v: u32 = u32_from_le_bytes(part.as_slice());
    proof {
        let s = bytes@.skip(*pos as int);
        assert(part@ =~= s.take(4));
        assert(s.skip(4) =~= bytes@.skip(*pos + 4));
    }
    *pos = *pos + 4;
    Some(v)
}

/// Reads a number and moves on.
pub fn read_u64(bytes: &Vec<u8>, pos: &mut usize) -> (r: Option<u64>)
    requires
        *old(pos) <= bytes@.len(),
    ensures
        *final(pos) <= bytes@.len(),
        match r {
            Some(v) => parsed_u64(bytes@.skip(*old(pos) as int)) == Some(
                (v, bytes@.skip(*final(pos) as int)),
            ),
            None => parsed_u64(bytes@.skip(*old(pos) as int)) is None && *final(pos) == *old(pos),
        },
{
    if bytes.len() - *pos < 8 {
        return None;
    }
    let part: Vec<u8> = copy_part(bytes, *pos, *pos + 8);
    let v: u64 = u64_from_le_bytes(part.as_slice());
    proof {
        let s = bytes@.skip(*pos as int);
        assert(part@ =~= s.take(8));
        assert(s.skip(8) =~= bytes@.skip(*pos + 8));
    }
    *pos = *pos + 8;
    Some(v)
}

fn read_dims(bytes: &Vec<u8>, pos: &mut usize, n: u32) -> (r: Option<Vec<u64>>)
    requires
        *old(pos) <= bytes@.len(),
    ensures
        *final(pos) <= bytes@.len(),
        match r {
            Some(v) => parsed_dims(bytes@.skip(*old(pos) as int), n as nat) == Some(
                (v@, bytes@.skip(*final(pos) as int)),
            ),
            None => parsed_dims(bytes@.skip(*old(pos) as int), n as nat) is None,
        },
{
    let ghost s = bytes@.skip(*pos as int);
    let mut out: Vec<u64> = Vec::new();
    let mut i: u32 = 0;
    while i < n
        invariant
            i <= n,
            *pos <= bytes@.len(),
            s == bytes@.skip(*old(pos) as int),
            match parsed_dims(bytes@.skip(*pos as int), (n - i) as nat) {
                None => parsed_dims(s, n as nat) is None,
                Some((ds, rest)) => parsed_dims(s, n as nat) == Some((out@ + ds, rest)),
            },
        decreases n - i,
    {
        let ghost before_read = bytes@.skip(*pos as int);
        let ghost had = out@;
        match read_u64(bytes, pos) {
            None => {
                return None;
            },
            Some(d) => {
                out.push(d);
                proof {
                    let rest = bytes@.skip(*pos as int);
                    match parsed_dims(rest, (n - i - 1) as nat) {
                        None => {},
                        Some((ds, end)) => {
                            assert(had + (seq![d] + ds) =~= out@ + ds);
                        },
                    }
                }
            },
        }
        i += 1;
    }
    proof {
        assert(out@ + Seq::<u64>::empty() =~= out@);
    }
    Some(out)
}

fn read_payload(bytes: &Vec<u8>, pos: &mut usize) -> (r: Option<(u32, Vec<i8>)>)
    requires
        *old(pos) <= bytes@.len(),
    ensures
        *final(pos) <= bytes@.len(),
        match r {
            Some((scale, data)) => parsed_payload(bytes@.skip(*old(pos) as int)) == Some(
                (scale, data@, bytes@.skip(*final(pos) as int)),
            ),
            None => parsed_payload(bytes@.skip(*old(pos) as int)) is None,
        },
{
    let scale: u32 = match read_u32(bytes, pos) {
        Some(v) => v,
        None => {
            return None;
        },
    };
    let n: u64 = match read_u64(bytes, pos) {
        Some(v) => v,
        None => {
            return None;
        },
    };
    let left: u64 = (bytes.len() - *pos) as u64;
    if left < n {
        return None;
    }
    let count: usize = n as usize;
    let ghost s = bytes@.skip(*pos as int);
    let ghost want = s.take(n as int).map_values(|b: u8| signed_of(b));
    let mut data: Vec<i8> = Vec::new();
    let mut i: usize = 0;
    while i < count
        invariant
            i <= count,
            count == n,
            *pos + count <= bytes.len(),
            s == bytes@.skip(*pos as int),
            want == s.take(n as int).map_values(|b: u8| signed_of(b)),
            data@ == want.take(i as int),
        decreases count - i,
    {
        let b: u8 = bytes[*pos + i];
        let v: i8 = if b < 128 {
            b as i8
        } else {
            (b as i16 - 256) as i8
        };
        data.push(v);
        proof {
            assert(want[i as int] == v);
            assert(data@ =~= want.take(i + 1));
        }
        i += 1;
    }
    proof {
        assert(want.take(i as int) =~= want);
        assert(s.skip(n as int) =~= bytes@.skip(*pos + n));
    }
    *pos = *pos + count;
    Some((scale, data))
}

fn read_tensor(bytes: &Vec<u8>, pos: &mut usize) -> (r: Result<QuantizedTensor, FormatError>)
    requires
        *old(pos) <= bytes@.len(),
    ensures
        *final(pos) <= bytes@.len(),
        match r {
            Ok(t) => parsed_tensor(bytes@.skip(*old(pos) as int)) == Ok::<
                (TensorView, Seq<u8>),
                FormatErrorView,
            >((t@, bytes@.skip(*final(pos) as int))),
            Err(e) => parsed_tensor(bytes@.skip(*old(pos) as int)) == Err::<
                (TensorView, Seq<u8>),
                FormatErrorView,
            >(e@),
        },
{
    let n: u32 = match read_u32(bytes, pos) {
        Some(v) => v,
        None => {
            return Err(FormatError::UnexpectedEnd);
        },
    };
    let left: u64 = (bytes.len() - *pos) as u64;
    if left < n as u64 {
        return Err(FormatError::UnexpectedEnd);
    }
    let len: usize = n as usize;
    let raw: Vec<u8> = copy_part(bytes, *pos, *pos + len);
    proof {
        let s = bytes@.skip(*pos as int);
        assert(raw@ =~= s.take(n as int));
        assert(s.skip(n as int) =~= bytes@.skip(*pos + n));
    }
    *pos = *pos + len;
    let name: String = match text_from_utf8(raw) {
        Ok(s) => s,
        Err(m) => {
            return Err(FormatError::InvalidName(m));
        },
    };
    let dims: u32 = match read_u32(bytes, pos) {
        Some(v) => v,
        None => {
            return Err(FormatError::UnexpectedEnd);
        },
    };
    let shape: Vec<u64> = match read_dims(bytes, pos, dims) {
        Some(v) => v,
        None => {
            return Err(FormatError::UnexpectedEnd);
        },
    };
    match read_payload(bytes, pos) {
        Some((scale, data)) => Ok(QuantizedTensor { name, shape, scale, data }),
        None => Err(FormatError::UnexpectedEnd),
    }
}

/// The tensors of a file.
pub fn decode_tensors(bytes: &Vec<u8>) -> (r: Result<Vec<QuantizedTensor>, FormatError>)
    ensures
        match r {
            Ok(v) => parsed_file(bytes@) == Ok::<Seq<TensorView>, FormatErrorView>(
                tensor_views(v@),
            ),
            Err(e) => parsed_file(bytes@) == Err::<Seq<TensorView>, FormatErrorView>(e@),
        },
{
    if bytes.len() < 4 {
        return Err(FormatError::UnexpectedEnd);
    }
    if !looks_quantized(bytes) {
        return Err(FormatError::BadMagic);
    }
    let mut pos: usize = 4;
    if read_u8(bytes, &mut pos).is_none() {
        return Err(FormatError::UnexpectedEnd);
    }
    let n: u32 = match read_u32(bytes, &mut pos) {
        Some(v) => v,
        None => {
            return Err(FormatError::UnexpectedEnd);
        },
    };
    let ghost s = bytes@.skip(pos as int);
    let mut out: Vec<QuantizedTensor> = Vec::new();
    let mut i: u32 = 0;
    proof {
        match parsed_tensors(s, n as nat) {
            Ok((ts, rest)) => {
                assert(tensor_views(out@) + ts =~= ts);
            },
            Err(_) => {},
        }
    }
    while i < n
        invariant
            i <= n,
            pos <= bytes@.len(),
            parsed_file(bytes@) == (match parsed_tensors(s, n as nat) {
                Err(e) => Err(e),
                Ok((ts, _)) => Ok(ts),
            }),
            match parsed_tensors(bytes@.skip(pos as int), (n - i) as nat) {
                Err(e) => parsed_tensors(s, n as nat) == Err::<
                    (Seq<TensorView>, Seq<u8>),
                    FormatErrorView,
                >(e),
                Ok((ts, rest)) => parsed_tensors(s, n as nat) == Ok::<
                    (Seq<TensorView>, Seq<u8>),
                    FormatErrorView,
                >((tensor_views(out@) + ts, rest)),
            },
        decreases n - i,
    {
        let ghost had = tensor_views(out@);
        match read_tensor(bytes, &mut pos) {
            Err(e) => {
                return Err(e);
            },
            Ok(t) => {
                let ghost v = t@;
                out.push(t);
                proof {
                    assert(tensor_views(out@) =~= had.push(v));
                    match parsed_tensors(bytes@.skip(pos as int), (n - i - 1) as nat) {
                        Err(_) => {},
                        Ok((ts, _)) => {
                            assert(had + (seq![v] + ts) =~= tensor_views(out@) + ts);
                        },
                    }
                }
            },
        }
        i += 1;
    }
    proof {
        assert(tensor_views(out@) + Seq::<TensorView>::empty() =~= tensor_views(out@));
    }
    Ok(out)
}

/// Whether the lengths of a tensor fit into the numbers that are stored.
pub open spec fn storable(t: TensorView) -> bool {
    &&& encode_utf8(t.name).len() <= u32::MAX
    &&& t.shape.len() <= u32::MAX
    &&& t.data.len() <= u64::MAX
}

proof fn lemma_u32_front(v: u32, rest: Seq<u8>)
    ensures
        parsed_u32(spec_u32_to_le_bytes(v) + rest) == Some((v, rest)),
{
    lemma_auto_spec_u32_to_from_le_bytes();
    let s = spec_u32_to_le_bytes(v) + rest;
    assert(s.take(4) =~= spec_u32_to_le_bytes(v));
    assert(s.skip(4) =~= rest);
}

proof fn lemma_u64_front(v: u64, rest: Seq<u8>)
    ensures
        parsed_u64(spec_u64_to_le_bytes(v) + rest) == Some((v, rest)),
{
    lemma_auto_spec_u64_to_from_le_bytes();
    let s = spec_u64_to_le_bytes(v) + rest;
    assert(s.take(8) =~= spec_u64_to_le_bytes(v));
    assert(s.skip(8) =~= rest);
}

proof fn lemma_dims_front(shape: Seq<u64>, rest: Seq<u8>)
    ensures
        parsed_dims(encoded_dims(shape) + rest, shape.len()) == Some((shape, rest)),
    decreases shape.len(),
{
    if shape.len() == 0 {
        assert(encoded_dims(shape) + rest =~= rest);
        assert(shape =~= Seq::<u64>::empty());
    } else {
        let tail = encoded_dims(shape.skip(1)) + rest;
        assert(encoded_dims(shape) + rest =~= spec_u64_to_le_bytes(shape[0]) + tail);
        lemma_u64_front(shape[0], tail);
        lemma_dims_front(shape.skip(1), rest);
        assert(seq![shape[0]] + shape.skip(1) =~= shape);
    }
}

proof fn lemma_payload_front(scale: u32, data: Seq<i8>, rest: Seq<u8>)
    requires
        data.len() <= u64::MAX,
    ensures
        parsed_payload(
            spec_u32_to_le_bytes(scale) + (spec_u64_to_le_bytes(data.len() as u64) + (
            data.map_values(|v: i8| byte_of(v)) + rest)),
        ) == Some((scale, data, rest)),
{
    let bytes = data.map_values(|v: i8| byte_of(v));
    let s2 = bytes + rest;
    let s1 = spec_u64_to_le_bytes(data.len() as u64) + s2;
    lemma_u32_front(scale, s1);
    lemma_u64_front(data.len() as u64, s2);
    let n = data.len() as int;
    assert(s2.take(n) =~= bytes);
    assert(s2.skip(n) =~= rest);
    assert(bytes.map_values(|b: u8| signed_of(b)) =~= data);
}

proof fn lemma_tensor_front(t: TensorView, rest: Seq<u8>)
    requires
        storable(t),
    ensures
        parsed_tensor(encoded_tensor(t) + rest) == Ok::<(TensorView, Seq<u8>), FormatErrorView>(
            (t, rest),
        ),
{
    broadcast use group_utf8_lib;

    let name = encode_utf8(t.name);
    let bytes = t.data.map_values(|v: i8| byte_of(v));
    let s4 = spec_u32_to_le_bytes(t.scale) + (spec_u64_to_le_bytes(t.data.len() as u64) + (bytes
        + rest));
    let s3 = encoded_dims(t.shape) + s4;
    let s2 = spec_u32_to_le_bytes(t.shape.len() as u32) + s3;
    let s1 = name + s2;
    assert(encoded_tensor(t) + rest =~= spec_u32_to_le_bytes(name.len() as u32) + s1);
    lemma_u32_front(name.len() as u32, s1);
    assert(s1.take(name.len() as int) =~= name);
    assert(s1.skip(name.len() as int) =~= s2);
    assert(valid_utf8(name));
    assert(decode_utf8(name) =~= t.name);
    lemma_u32_front(t.shape.len() as u32, s3);
    lemma_dims_front(t.shape, s4);
    lemma_payload_front(t.scale, t.data, rest);
}

proof fn lemma_tensors_front(ts: Seq<TensorView>, rest: Seq<u8>)
    requires
        forall|i: int| 0 <= i < ts.len() ==> storable(#[trigger] ts[i]),
    ensures
        parsed_tensors(encoded_tensors(ts) + rest, ts.len()) == Ok::<
            (Seq<TensorView>, Seq<u8>),
            FormatErrorView,
        >((ts, rest)),
    decreases ts.len(),
{
    if ts.len() == 0 {
        assert(encoded_tensors(ts) + rest =~= rest);
        assert(ts =~= Seq::<TensorView>::empty());
    } else {
        let more = ts.skip(1);
        let tail = encoded_tensors(more) + rest;
        assert(encoded_tensors(ts) + rest =~= encoded_tensor(ts[0]) + tail);
        lemma_tensor_front(ts[0], tail);
        assert forall|i: int| 0 <= i < more.len() implies storable(#[trigger] more[i]) by {
            assert(more[i] == ts[i + 1]);
        }
        lemma_tensors_front(more, rest);
        assert(seq![ts[0]] + more =~= ts);
    }
}

/// A file gives back the tensors that were written into it, whatever follows
/// them.
pub proof fn law_file_reads_back(ts: Seq<TensorView>, rest: Seq<u8>)
    requires
        ts.len() <= u32::MAX,
        forall|i: int| 0 <= i < ts.len() ==> storable(#[trigger] ts[i]),
    ensures
        parsed_file(encoded_file(ts) + rest) == Ok::<Seq<TensorView>, FormatErrorView>(ts),
{
    let s1 = encoded_tensors(ts) + rest;
    let s2 = spec_u32_to_le_bytes(ts.len() as u32) + s1;
    let file = encoded_file(ts) + rest;
    assert(file.take(4) =~= magic());
    assert(file.skip(5) =~= s2);
    lemma_u32_front(ts.len() as u32, s1);
    lemma_tensors_front(ts, rest);
}

/// What is read from the start of `s` is read from it too when more follows.
proof fn lemma_more_follows_u32(s: Seq<u8>, x: Seq<u8>)
    ensures
        parsed_u32(s) matches Some((v, r)) ==> parsed_u32(s + x) == Some((v, r + x)),
{
    if s.len() >= 4 {
        assert((s + x).take(4) =~= s.take(4));
        assert((s + x).skip(4) =~= s.skip(4) + x);
    }
}

proof fn lemma_more_follows_u64(s: Seq<u8>, x: Seq<u8>)
    ensures
        parsed_u64(s) matches Some((v, r)) ==> parsed_u64(s + x) == Some((v, r + x)),
{
    if s.len() >= 8 {
        assert((s + x).take(8) =~= s.take(8));
        assert((s + x).skip(8) =~= s.skip(8) + x);
    }
}

proof fn lemma_more_follows_dims(s: Seq<u8>, n: nat, x: Seq<u8>)
    ensures
        parsed_dims(s, n) matches Some((v, r)) ==> parsed_dims(s + x, n) == Some((v, r + x)),
    decreases n,
{
    if n > 0 {
        lemma_more_follows_u64(s, x);
        if let Some((_, rest)) = parsed_u64(s) {
            lemma_more_follows_dims(rest, (n - 1) as nat, x);
        }
    }
}

proof fn lemma_more_follows_payload(s: Seq<u8>, x: Seq<u8>)
    ensures
        parsed_payload(s) matches Some((a, b, r)) ==> parsed_payload(s + x) == Some((a, b, r + x)),
{
    lemma_more_follows_u32(s, x);
    if let Some((_, s1)) = parsed_u32(s) {
        lemma_more_follows_u64(s1, x);
        if let Some((n, s2)) = parsed_u64(s1) {
            if s2.len() >= n {
                assert((s2 + x).take(n as int) =~= s2.take(n as int));
                assert((s2 + x).skip(n as int) =~= s2.skip(n as int) + x);
            }
        }
    }
}

/// A tensor is read alike when more follows, unless its end was missing.
proof fn lemma_more_follows_tensor(s: Seq<u8>, x: Seq<u8>)
    ensures
        match parsed_tensor(s) {
            Ok((t, r)) => parsed_tensor(s + x) == Ok::<(TensorView, Seq<u8>), FormatErrorView>(
                (t, r + x),
            ),
            Err(e) => e is UnexpectedEnd || parsed_tensor(s + x) == Err::<
                (TensorView, Seq<u8>),
                FormatErrorView,
            >(e),
        },
{
    lemma_more_follows_u32(s, x);
    if let Some((n, s1)) = parsed_u32(s) {
        if s1.len() >= n {
            assert((s1 + x).take(n as int) =~= s1.take(n as int));
            assert((s1 + x).skip(n as int) =~= s1.skip(n as int) + x);
            let s2 = s1.skip(n as int);
            lemma_more_follows_u32(s2, x);
            if let Some((k, s3)) = parsed_u32(s2) {
                lemma_more_follows_dims(s3, k as nat, x);
                if let Some((_, s4)) = parsed_dims(s3, k as nat) {
                    lemma_more_follows_payload(s4, x);
                }
            }
        }
    }
}

proof fn lemma_more_follows_tensors(s: Seq<u8>, n: nat, x: Seq<u8>)
    ensures
        match parsed_tensors(s, n) {
            Ok((ts, r)) => parsed_tensors(s + x, n) == Ok::<
                (Seq<TensorView>, Seq<u8>),
                FormatErrorView,
            >((ts, r + x)),
            Err(e) => e is UnexpectedEnd || parsed_tensors(s + x, n) == Err::<
                (Seq<TensorView>, Seq<u8>),
                FormatErrorView,
            >(e),
        },
    decreases n,
{
    if n > 0 {
        lemma_more_follows_tensor(s, x);
        if let Ok((_, rest)) = parsed_tensor(s) {
            lemma_more_follows_tensors(rest, (n - 1) as nat, x);
        }
    }
}

/// A file that was cut off anywhere is refused, as one that ends too early.
pub proof fn law_cut_off_file_is_refused(ts: Seq<TensorView>, k: int)
    requires
        ts.len() <= u32::MAX,
        forall|i: int| 0 <= i < ts.len() ==> storable(#[trigger] ts[i]),
        0 <= k < encoded_file(ts).len(),
    ensures
        parsed_file(encoded_file(ts).take(k)) == Err::<Seq<TensorView>, FormatErrorView>(
            FormatErrorView::UnexpectedEnd,
        ),
{
    let file = encoded_file(ts);
    let cut = file.take(k);
    let x = file.skip(k);
    if k >= 4 {
        assert(cut.take(4) =~= magic());
    }
    if k >= 5 {
        let body = encoded_tensors(ts);
        assert(file.skip(5) =~= spec_u32_to_le_bytes(ts.len() as u32) + body);
        assert(file.skip(5) =~= cut.skip(5) + x);
        lemma_u32_front(ts.len() as u32, body);
        lemma_more_follows_u32(cut.skip(5), x);
        if let Some((n, s)) = parsed_u32(cut.skip(5)) {
            assert(n == ts.len() && body == s + x);
            assert(body + Seq::<u8>::empty() =~= body);
            lemma_tensors_front(ts, Seq::empty());
            lemma_more_follows_tensors(s, n as nat, x);
            if let Ok((_, r)) = parsed_tensors(s, n as nat) {
                assert((r + x).len() == 0);
            }
        }
    }
}

/// A file with other first bytes is refused.
pub proof fn law_other_first_bytes_are_refused(bytes: Seq<u8>)
    requires
        bytes.len() >= 4,
        bytes.take(4) != magic(),
    ensures
        parsed_file(bytes) == Err::<Seq<TensorView>, FormatErrorView>(FormatErrorView::BadMagic),
{
}

/// The number of elements of a tensor with the given dimensions.
pub open spec fn element_count(shape: Seq<u64>) -> nat
    decreases shape.len(),
{
    if shape.len() == 0 {
        1
    } else {
        element_count(shape.drop_last()) * shape.last() as nat
    }
}

/// Whether a tensor holds as many elements as its dimensions say.
pub open spec fn fits_shape(t: TensorView) -> bool {
    element_count(t.shape) == t.data.len()
}

proof fn lemma_element_count(shape: Seq<u64>, i: int)
    requires
        0 <= i <= shape.len(),
    ensures
        (exists|k: int| 0 <= k < shape.len() && shape[k] == 0) ==> element_count(shape) == 0,
        (forall|k: int| 0 <= k < shape.len() ==> #[trigger] shape[k] > 0) ==> element_count(
            shape.take(i),
        ) <= element_count(shape),
    decreases shape.len(),
{
    if shape.len() > 0 {
        let rest = shape.drop_last();
        let e = element_count(rest);
        let d = shape.last() as nat;
        if i < shape.len() {
            lemma_element_count(rest, i);
            assert(rest.take(i) =~= shape.take(i));
        } else {
            lemma_element_count(rest, rest.len() as int);
            assert(shape.take(i) =~= shape);
        }
        if exists|k: int| 0 <= k < shape.len() && shape[k] == 0 {
            let k = choose|k: int| 0 <= k < shape.len() && shape[k] == 0;
            if k < rest.len() {
                assert(rest[k] == 0);
            }
            assert(e * d == 0) by (nonlinear_arith)
                requires
                    e == 0 || d == 0,
            ;
        }
        if forall|k: int| 0 <= k < shape.len() ==> #[trigger] shape[k] > 0 {
            assert forall|k: int| 0 <= k < rest.len() implies #[trigger] rest[k] > 0 by {
                assert(shape[k] > 0);
            }
            assert(shape[shape.len() - 1] > 0);
            assert(e <= e * d) by (nonlinear_arith)
                requires
                    d >= 1,
            ;
        }
    } else {
        assert(shape.take(i) =~= shape);
    }
}

/// Whether a tensor holds as many elements as its dimensions say.
fn holds_its_elements(t: &QuantizedTensor) -> (r: bool)
    ensures
        r == fits_shape(t@),
{
    let n: usize = t.data.len();
    let mut i: usize = 0;
    while i < t.shape.len()
        invariant
            i <= t.shape.len(),
            n == t.data@.len(),
            forall|k: int| 0 <= k < i ==> #[trigger] t.shape@[k] > 0,
        decreases t.shape.len() - i,
    {
        if t.shape[i] == 0 {
            proof {
                assert(t.shape@[i as int] == 0);
                lemma_element_count(t.shape@, 0);
            }
            return n == 0;
        }
        i += 1;
    }
    let mut count: u128 = 1;
    let mut j: usize = 0;
    assert(t.shape@.take(0) =~= Seq::<u64>::empty());
    while j < t.shape.len()
        invariant
            j <= t.shape.len(),
            n == t.data@.len(),
            forall|k: int| 0 <= k < t.shape@.len() ==> #[trigger] t.shape@[k] > 0,
            count == element_count(t.shape@.take(j as int)),
            count <= u64::MAX,
        decreases t.shape.len() - j,
    {
        let d: u64 = t.shape[j];
        assert(count * d <= 0xffff_ffff_ffff_ffff * 0xffff_ffff_ffff_ffff) by (nonlinear_arith)
            requires
                count <= 0xffff_ffff_ffff_ffff,
                d <= 0xffff_ffff_ffff_ffff,
        ;
        proof {
            assert(t.shape@.take(j + 1).drop_last() =~= t.shape@.take(j as int));
        }
        count = count * d as u128;
        j += 1;
        if count > n as u128 {
            proof {
                lemma_element_count(t.shape@, j as int);
            }
            return false;
        }
    }
    assert(t.shape@.take(j as int) =~= t.shape@);
    count == n as u128
}

/// The position of the first tensor that does not hold as many elements as its
/// dimensions say, if there is one.
pub fn first_misfit(tensors: &Vec<QuantizedTensor>) -> (r: Option<usize>)
    ensures
        match r {
            Some(k) => k < tensors@.len() && !fits_shape(tensors@[k as int]@) && forall|i: int|
                0 <= i < k ==> fits_shape((#[trigger] tensors@[i])@),
            None => forall|i: int|
                0 <= i < tensors@.len() ==> fits_shape((#[trigger] tensors@[i])@),
        },
{
    let mut i: usize = 0;
    while i < tensors.len()
        invariant
            i <= tensors.len(),
            forall|k: int| 0 <= k < i ==> fits_shape((#[trigger] tensors@[k])@),
        decreases tensors.len() - i,
    {
        if !holds_its_elements(&tensors[i]) {
            return Some(i);
        }
        i += 1;
    }
    None
}

/// A file that was written is recognised.
pub proof fn law_written_file_is_recognised(ts: Seq<TensorView>)
    ensures
        encoded_file(ts).len() >= 4,
        encoded_file(ts).take(4) == magic(),
{
    assert(encoded_file(ts).take(4) =~= magic());
}

/// Whether the names of tensors ascend.
pub open spec fn sorted_by_name(ts: Seq<QuantizedTensor>) -> bool {
    forall|a: int, b: int|
        0 <= a < b < ts.len() ==> text_less((#[trigger] ts[a]).name@, (#[trigger] ts[b]).name@)
}

/// Whether no two tensors have the same name.
pub open spec fn names_distinct(ts: Seq<QuantizedTensor>) -> bool {
    forall|a: int, b: int|
        0 <= a < b < ts.len() ==> (#[trigger] ts[a]).name@ != (#[trigger] ts[b]).name@
}

proof fn lemma_insert_named(ts: Seq<QuantizedTensor>, j: int, t: QuantizedTensor)
    requires
        0 <= j <= ts.len(),
        sorted_by_name(ts),
        forall|a: int| 0 <= a < j ==> text_less((#[trigger] ts[a]).name@, t.name@),
        j < ts.len() ==> text_less(t.name@, ts[j].name@),
    ensures
        sorted_by_name(ts.insert(j, t)),
{
    let out = ts.insert(j, t);
    assert forall|a: int, b: int| 0 <= a < b < out.len() implies text_less(
        (#[trigger] out[a]).name@,
        (#[trigger] out[b]).name@,
    ) by {
        if a == j {
            assert(out[b] == ts[b - 1]);
            if b - 1 > j {
                lemma_text_less_trans(t.name@, ts[j].name@, ts[b - 1].name@);
            }
        } else if b == j {
            assert(out[a] == ts[a]);
        } else {
            let x = if a < j {
                a
            } else {
                a - 1
            };
            let y = if b < j {
                b
            } else {
                b - 1
            };
            assert(out[a] == ts[x]);
            assert(out[b] == ts[y]);
        }
    }
}

/// Puts tensors, each of which has a name of its own, into the order of their
/// names.
pub fn sort_by_name(tensors: Vec<QuantizedTensor>) -> (r: Vec<QuantizedTensor>)
    requires
        names_distinct(tensors@),
    ensures
        sorted_by_name(r@),
        r@.to_multiset() =~= tensors@.to_multiset(),
{
    broadcast use vstd::seq_lib::group_to_multiset_ensures;

    let ghost all = tensors@;
    let mut rest: Vec<QuantizedTensor> = tensors;
    let mut out: Vec<QuantizedTensor> = Vec::new();
    assert(out@.to_multiset().add(rest@.to_multiset()) =~= all.to_multiset());
    while rest.len() > 0
        invariant
            sorted_by_name(out@),
            names_distinct(rest@),
            forall|a: int, b: int|
                0 <= a < out@.len() && 0 <= b < rest@.len() ==> (#[trigger] out@[a]).name@ != (
                #[trigger] rest@[b]).name@,
            out@.to_multiset().add(rest@.to_multiset()) =~= all.to_multiset(),
        decreases rest.len(),
    {
        broadcast use vstd::seq_lib::group_to_multiset_ensures;

        let ghost had = rest@;
        let ghost sorted = out@;
        if let Some(t) = rest.pop() {
            let mut j: usize = 0;
            while j < out.len() && less_text(out[j].name.as_str(), t.name.as_str())
                invariant
                    j <= out.len(),
                    out@ == sorted,
                    forall|a: int| 0 <= a < j ==> text_less((#[trigger] out@[a]).name@, t.name@),
                decreases out.len() - j,
            {
                j += 1;
            }
            proof {
                assert(had =~= rest@.push(t));
                assert(had[rest@.len() as int] == t);
                if j < out.len() {
                    assert(out@[j as int].name@ != had[rest@.len() as int].name@);
                    lemma_text_less_total(out@[j as int].name@, t.name@);
                }
                lemma_insert_named(out@, j as int, t);
                vstd::seq_lib::to_multiset_insert(out@, j as int, t);
            }
            out.insert(j, t);
            proof {
                assert forall|a: int, b: int| 0 <= a < b < rest@.len() implies (
                #[trigger] rest@[a]).name@ != (#[trigger] rest@[b]).name@ by {
                    assert(had[a].name@ != had[b].name@);
                }
                assert forall|a: int, b: int| 0 <= a < out@.len() && 0 <= b < rest@.len() implies (
                #[trigger] out@[a]).name@ != (#[trigger] rest@[b]).name@ by {
                    assert(rest@[b] == had[b]);
                    if a < j {
                        assert(out@[a] == sorted[a]);
                    } else if a == j {
                        assert(had[b].name@ != had[rest@.len() as int].name@);
                    } else {
                        assert(out@[a] == sorted[a - 1]);
                    }
                }
                assert(out@.to_multiset() =~= sorted.to_multiset().insert(t));
                assert(had.to_multiset() =~= rest@.to_multiset().insert(t));
                assert(out@.to_multiset().add(rest@.to_multiset()) =~= all.to_multiset());
            }
        }
    }
    proof {
        assert(rest@ =~= Seq::<QuantizedTensor>::empty());
        assert(out@.to_multiset().add(rest@.to_multiset()) =~= out@.to_multiset());
    }
    out
}

/// The order of names is decided by which tensors there are: the layout of a
/// file does not depend on the order in which its tensors come.
pub proof fn law_layout_is_deterministic(a: Seq<QuantizedTensor>, b: Seq<QuantizedTensor>)
    requires
        sorted_by_name(a),
        sorted_by_name(b),
        a.to_multiset() =~= b.to_multiset(),
    ensures
        a == b,
    decreases a.len(),
{
    broadcast use vstd::seq_lib::group_to_multiset_ensures;

    assert(a.len() == b.len()) by {
        assert(a.to_multiset().len() == a.len());
        assert(b.to_multiset().len() == b.len());
    }
    if a.len() == 0 {
        assert(a =~= b);
    } else {
        let n = a.len() - 1;
        let x = a[n];
        let y = b[n];
        assert(a.contains(x));
        assert(a.to_multiset().count(x) > 0);
        assert(b.contains(x));
        assert(b.contains(y));
        assert(b.to_multiset().count(y) > 0);
        assert(a.contains(y));
        let i = choose|i: int| 0 <= i < b.len() && b[i] == x;
        let j = choose|j: int| 0 <= j < a.len() && a[j] == y;
        if i < n && j < n {
            assert(text_less(b[i].name@, b[n].name@));
            assert(text_less(a[j].name@, a[n].name@));
            lemma_text_less_trans(x.name@, y.name@, x.name@);
            lemma_text_less_total(x.name@, x.name@);
        }
        assert(x == y);
        let a1 = a.drop_last();
        let b1 = b.drop_last();
        assert(a =~= a1.push(x));
        assert(b =~= b1.push(y));
        assert(a1.to_multiset() =~= a.to_multiset().remove(x));
        assert(b1.to_multiset() =~= b.to_multiset().remove(y));
        assert(sorted_by_name(a1));
        assert(sorted_by_name(b1));
        law_layout_is_deterministic(a1, b1);
    }
}

/// The bytes of a file that holds `tensors`, in the order of their names.
pub fn encode_sorted(tensors: Vec<QuantizedTensor>) -> (r: Vec<u8>)
    requires
        names_distinct(tensors@),
    ensures
        exists|sorted: Seq<QuantizedTensor>|
            #[trigger] sorted_by_name(sorted) && sorted.to_multiset() =~= tensors@.to_multiset()
                && r@ == encoded_file(tensor_views(sorted)),
{
    let sorted: Vec<QuantizedTensor> = sort_by_name(tensors);
    encode_tensors(&sorted)
}

/// A file begins with `SGQZ`, the version one and the number of its tensors, and
/// the tensors follow one after the other.
pub proof fn law_file_is_header_and_tensors(a: Seq<TensorView>, b: Seq<TensorView>)
    ensures
        encoded_file(a).len() == 9 + encoded_tensors(a).len(),
        encoded_file(a)[0] == 0x53 && encoded_file(a)[1] == 0x47,
        encoded_file(a)[2] == 0x51 && encoded_file(a)[3] == 0x5a,
        encoded_file(a)[4] == 1,
        encoded_file(a).subrange(5, 9) == spec_u32_to_le_bytes(a.len() as u32),
        encoded_file(a).skip(9) == encoded_tensors(a),
        encoded_tensors(a + b) == encoded_tensors(a) + encoded_tensors(b),
        b.len() == 1 ==> encoded_tensors(b) == encoded_tensor(b[0]),
        encoded_tensors(Seq::empty()) == Seq::<u8>::empty(),
{
    lemma_auto_spec_u32_to_from_le_bytes();
    let f = encoded_file(a);
    assert(f.subrange(5, 9) =~= spec_u32_to_le_bytes(a.len() as u32));
    assert(f.skip(9) =~= encoded_tensors(a));
    lemma_encoded_add(a, b);
    if b.len() == 1 {
        assert(b.skip(1) =~= Seq::<TensorView>::empty());
        reveal_with_fuel(encoded_tensors, 2);
        assert(encoded_tensors(b) =~= encoded_tensor(b[0]));
    }
}

proof fn lemma_encoded_add(a: Seq<TensorView>, b: Seq<TensorView>)
    ensures
        encoded_tensors(a + b) == encoded_tensors(a) + encoded_tensors(b),
    decreases a.len(),
{
    if a.len() == 0 {
        assert(a + b =~= b);
        assert(encoded_tensors(a) + encoded_tensors(b) =~= encoded_tensors(b));
    } else {
        assert((a + b).skip(1) =~= a.skip(1) + b);
        lemma_encoded_add(a.skip(1), b);
        assert(encoded_tensors(a + b) =~= encoded_tensors(a) + encoded_tensors(b));
    }
}

/// A tensor is stored as the length of its name and the name, the number of its
/// dimensions and eight bytes for each, the scale, the number of its elements and
/// one byte for each, which is the element itself or, below zero, 256 more.
pub proof fn law_tensor_is_stored_part_by_part(t: TensorView, i: int)
    ensures
        ({
            let name = encode_utf8(t.name);
            let n = name.len() as int;
            let d = 8 * t.shape.len() as int;
            let s = encoded_tensor(t);
            &&& s.len() == 4 + n + 4 + d + 4 + 8 + t.data.len()
            &&& s.take(4) == spec_u32_to_le_bytes(n as u32)
            &&& s.subrange(4, 4 + n) == name
            &&& s.subrange(4 + n, 8 + n) == spec_u32_to_le_bytes(t.shape.len() as u32)
            &&& 0 <= i < t.shape.len() ==> s.subrange(8 + n + 8 * i, 16 + n + 8 * i)
                == spec_u64_to_le_bytes(t.shape[i])
            &&& s.subrange(8 + n + d, 12 + n + d) == spec_u32_to_le_bytes(t.scale)
            &&& s.subrange(12 + n + d, 20 + n + d) == spec_u64_to_le_bytes(t.data.len() as u64)
            &&& 0 <= i < t.data.len() ==> s[20 + n + d + i] == if t.data[i] >= 0 {
                t.data[i] as int
            } else {
                t.data[i] + 256
            }
        }),
{
    lemma_auto_spec_u32_to_from_le_bytes();
    lemma_auto_spec_u64_to_from_le_bytes();
    let name = encode_utf8(t.name);
    let n = name.len() as int;
    let d = 8 * t.shape.len() as int;
    let s = encoded_tensor(t);
    lemma_dims_len(t.shape);
    let dims = encoded_dims(t.shape);
    assert(s.take(4) =~= spec_u32_to_le_bytes(n as u32));
    assert(s.subrange(4, 4 + n) =~= name);
    assert(s.subrange(4 + n, 8 + n) =~= spec_u32_to_le_bytes(t.shape.len() as u32));
    assert(s.subrange(8 + n, 8 + n + d) =~= dims);
    assert(s.subrange(8 + n + d, 12 + n + d) =~= spec_u32_to_le_bytes(t.scale));
    assert(s.subrange(12 + n + d, 20 + n + d) =~= spec_u64_to_le_bytes(t.data.len() as u64));
    if 0 <= i < t.shape.len() {
        lemma_dims_at(t.shape, i);
        assert(s.subrange(8 + n + 8 * i, 16 + n + 8 * i) =~= dims.subrange(8 * i, 8 * i + 8)) by {
            assert forall|k: int| 0 <= k < 8 implies #[trigger] s.subrange(
                8 + n + 8 * i,
                16 + n + 8 * i,
            )[k] == dims.subrange(8 * i, 8 * i + 8)[k] by {
                assert(s.subrange(8 + n, 8 + n + d)[8 * i + k] == dims[8 * i + k]);
            }
        }
    }
}

proof fn lemma_dims_len(shape: Seq<u64>)
    ensures
        encoded_dims(shape).len() == 8 * shape.len(),
    decreases shape.len(),
{
    lemma_auto_spec_u64_to_from_le_bytes();
    if shape.len() > 0 {
        lemma_dims_len(shape.skip(1));
    }
}

proof fn lemma_dims_at(shape: Seq<u64>, i: int)
    requires
        0 <= i < shape.len(),
    ensures
        encoded_dims(shape).subrange(8 * i, 8 * i + 8) == spec_u64_to_le_bytes(shape[i]),
    decreases shape.len(),
{
    lemma_auto_spec_u64_to_from_le_bytes();
    let e = encoded_dims(shape);
    lemma_dims_len(shape);
    if i == 0 {
        assert(e.subrange(0, 8) =~= spec_u64_to_le_bytes(shape[0]));
    } else {
        let rest = encoded_dims(shape.skip(1));
        lemma_dims_len(shape.skip(1));
        lemma_dims_at(shape.skip(1), i - 1);
        assert(e.subrange(8 * i, 8 * i + 8) =~= rest.subrange(8 * (i - 1), 8 * (i - 1) + 8));
    }
}

/// The elements of a shape multiply with its dimensions, and names are in order
/// where each comes before those behind it.
pub proof fn law_shapes_and_names(
    shape: Seq<u64>,
    d: u64,
    ts: Seq<QuantizedTensor>,
    i: int,
    j: int,
)
    requires
        sorted_by_name(ts),
        0 <= i < j < ts.len(),
    ensures
        element_count(Seq::empty()) == 1,
        element_count(shape.push(d)) == element_count(shape) * d,
        text_less(ts[i].name@, ts[j].name@),
{
    assert(shape.push(d).drop_last() =~= shape);
}

/// Whether a tensor has as many elements as its shape says.
pub proof fn law_elements_fit_the_shape(t: TensorView)
    ensures
        fits_shape(t) <==> element_count(t.shape) == t.data.len(),
{
}

proof fn lemma_read_dims(s: Seq<u8>, n: nat)
    ensures
        parsed_dims(s, n) matches Some((ds, rest)) ==> ds.len() == n && s == encoded_dims(ds)
            + rest,
    decreases n,
{
    lemma_auto_spec_u64_to_from_le_bytes();
    if n == 0 {
        assert(encoded_dims(Seq::empty()) + s =~= s);
    } else if let Some((d, rest)) = parsed_u64(s) {
        lemma_read_dims(rest, (n - 1) as nat);
        assert(spec_u64_to_le_bytes(d) == s.take(8));
        if let Some((ds, more)) = parsed_dims(rest, (n - 1) as nat) {
            let all = seq![d] + ds;
            assert(all.skip(1) =~= ds);
            assert(encoded_dims(all) == spec_u64_to_le_bytes(d) + encoded_dims(ds));
            assert(s =~= s.take(8) + rest);
            assert(s =~= encoded_dims(all) + more);
        }
    }
}

/// What is read of a tensor is what stands there: writing it gives the bytes
/// back.
pub proof fn law_tensor_is_read_as_it_stands(s: Seq<u8>)
    ensures
        parsed_tensor(s) matches Ok((t, rest)) ==> s == encoded_tensor(t) + rest,
{
    broadcast use vstd::utf8::group_utf8_lib;

    lemma_auto_spec_u32_to_from_le_bytes();
    lemma_auto_spec_u64_to_from_le_bytes();
    if let Ok((t, rest)) = parsed_tensor(s) {
        let n = (parsed_u32(s)->0).0;
        let s1 = (parsed_u32(s)->0).1;
        let name = s1.take(n as int);
        let s2 = s1.skip(n as int);
        let k = (parsed_u32(s2)->0).0;
        let s3 = (parsed_u32(s2)->0).1;
        let s4 = (parsed_dims(s3, k as nat)->0).1;
        let s5 = (parsed_u32(s4)->0).1;
        let m = (parsed_u64(s5)->0).0;
        let s6 = (parsed_u64(s5)->0).1;
        assert(encode_utf8(t.name) == name);
        lemma_read_dims(s3, k as nat);
        assert(spec_u32_to_le_bytes(n) == s.take(4));
        assert(spec_u32_to_le_bytes(k) == s2.take(4));
        assert(spec_u32_to_le_bytes(t.scale) == s4.take(4));
        assert(spec_u64_to_le_bytes(m) == s5.take(8));
        assert(t.data.map_values(|v: i8| byte_of(v)) =~= s6.take(m as int)) by {
            assert forall|i: int| 0 <= i < m implies byte_of(#[trigger] t.data[i]) == s6[i] by {
                let b = s6[i];
                assert(t.data[i] == signed_of(b));
            }
        }
        let data = t.data.map_values(|v: i8| byte_of(v));
        let e5 = spec_u64_to_le_bytes(m) + data;
        let e4 = spec_u32_to_le_bytes(t.scale) + e5;
        let e3 = encoded_dims(t.shape) + e4;
        let e2 = spec_u32_to_le_bytes(k) + e3;
        let e1 = name + e2;
        assert(encoded_tensor(t) == spec_u32_to_le_bytes(n) + e1);
        assert(s6 =~= data + rest);
        assert(s5 =~= e5 + rest);
        assert(s4 =~= e4 + rest);
        assert(s3 =~= e3 + rest);
        assert(s2 =~= e2 + rest) by {
            assert(s2 =~= spec_u32_to_le_bytes(k) + s3);
        }
        assert(s1 =~= e1 + rest) by {
            assert(s1 =~= name + s2);
        }
        assert(s =~= encoded_tensor(t) + rest) by {
            assert(s =~= spec_u32_to_le_bytes(n) + s1);
        }
    }
}

proof fn lemma_read_tensors(s: Seq<u8>, n: nat)
    ensures
        parsed_tensors(s, n) matches Ok((ts, rest)) ==> ts.len() == n && s == encoded_tensors(ts)
            + rest,
    decreases n,
{
    if n == 0 {
        assert(encoded_tensors(Seq::empty()) + s =~= s);
    } else if let Ok((t, rest)) = parsed_tensor(s) {
        law_tensor_is_read_as_it_stands(s);
        lemma_read_tensors(rest, (n - 1) as nat);
        if let Ok((ts, more)) = parsed_tensors(rest, (n - 1) as nat) {
            let all = seq![t] + ts;
            assert(all.skip(1) =~= ts);
            assert(encoded_tensors(all) == encoded_tensor(t) + encoded_tensors(ts));
            assert(s =~= encoded_tensors(all) + more);
        }
    }
}

/// What is read of a file is what stands there: the first four bytes are `SGQZ`,
/// four bytes behind the version say how many tensors follow, and these are the
/// tensors that are read. The version is not looked at.
pub proof fn law_file_is_read_as_it_stands(s: Seq<u8>, version: u8)
    ensures
        parsed_file(s) matches Ok(ts) ==> {
            &&& s.len() >= 9 + encoded_tensors(ts).len()
            &&& s[0] == 0x53 && s[1] == 0x47 && s[2] == 0x51 && s[3] == 0x5a
            &&& s.subrange(5, 9) == spec_u32_to_le_bytes(ts.len() as u32)
            &&& s.subrange(9, 9 + encoded_tensors(ts).len() as int) == encoded_tensors(ts)
        },
        s.len() > 4 ==> parsed_file(s.update(4, version)) == parsed_file(s),
{
    lemma_auto_spec_u32_to_from_le_bytes();
    if let Ok(ts) = parsed_file(s) {
        let count = s.skip(5).take(4);
        let n = spec_u32_from_le_bytes(count);
        let body = s.skip(5).skip(4);
        assert(spec_u32_to_le_bytes(n) == count);
        assert(s.subrange(5, 9) =~= count);
        lemma_read_tensors(body, n as nat);
        let rest = (parsed_tensors(body, n as nat)->Ok_0).1;
        assert(body == encoded_tensors(ts) + rest);
        let len = encoded_tensors(ts).len() as int;
        let part = s.subrange(9, 9 + len);
        assert forall|i: int| 0 <= i < len implies #[trigger] part[i] == encoded_tensors(ts)[i] by {
            assert(body[i] == s[9 + i]);
        }
        assert(part =~= encoded_tensors(ts));
        let m = s.take(4);
        assert(s[0] == m[0] && s[1] == m[1] && s[2] == m[2] && s[3] == m[3]);
    }
    if s.len() > 4 {
        let other = s.update(4, version);
        assert(other.take(4) =~= s.take(4));
        assert(other.skip(5) =~= s.skip(5));
    }
}

/// A name that is not text is refused, with the reason why it is not.
pub proof fn law_names_must_be_text(name: Seq<u8>, rest: Seq<u8>)
    requires
        name.len() <= u32::MAX,
        !valid_utf8(name),
    ensures
        parsed_tensor(spec_u32_to_le_bytes(name.len() as u32) + name + rest) == Err::<
            (TensorView, Seq<u8>),
            FormatErrorView,
        >(FormatErrorView::InvalidName(utf8_error(name))),
{
    lemma_auto_spec_u32_to_from_le_bytes();
    let s = spec_u32_to_le_bytes(name.len() as u32) + name + rest;
    assert(s.take(4) =~= spec_u32_to_le_bytes(name.len() as u32));
    assert(s.skip(4).take(name.len() as int) =~= name);
}

} // verus!
