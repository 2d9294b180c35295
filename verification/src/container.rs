//! The binary texture container: its in-memory model and the reader and
//! writer for its little-endian, pointer-based on-disk layout. The layout
//! is a 32-byte header region (texture count and a pointer to the header
//! table), then one 36-byte record per texture, then the pixel payloads.

use crate::codec::{decode_payload, encode_payload, read_texture_data, TextureDataArgs};
use crate::pixel_format::{spec_data_size, TexError, TextureFormat};
use crate::raster::{Raster, RasterView};
use vstd::prelude::*;

verus! {

broadcast use vstd::seq::group_seq_axioms;

/// The fixed leading fields of a container: the texture count and the
/// absolute pointer to the texture-header table.
#[derive(Clone, Copy, Debug, PartialEq, Eq, Structural)]
pub struct TexturePackageHeaderRaw {
    pub texture_count: u32,
    pub textures_ptr: u32,
}

/// The metadata carried beside a texture's raster: its id, four opaque
/// fields passed through unmodified, and the pixel format.
#[derive(Clone, Copy, Debug, PartialEq, Eq, Structural)]
pub struct TextureMeta {
    pub id: u32,
    pub unk_c: i32,
    pub unk_10: i32,
    pub unk_14: i32,
    pub unk_18: i32,
    pub texture_format: TextureFormat,
}

/// One on-disk texture-header record, without its payload pointer.
#[derive(Clone, Copy, Debug, PartialEq, Eq, Structural)]
pub struct TextureHeader {
    pub id: u32,
    pub width: u32,
    pub height: u32,
    pub unk_c: i32,
    pub unk_10: i32,
    pub unk_14: i32,
    pub unk_18: i32,
    pub texture_format: TextureFormat,
}

impl TextureHeader {
    /// The metadata of this header: everything but the dimensions.
    pub fn meta(&self) -> (m: TextureMeta)
        ensures
            m == (TextureMeta {
                id: self.id,
                unk_c: self.unk_c,
                unk_10: self.unk_10,
                unk_14: self.unk_14,
                unk_18: self.unk_18,
                texture_format: self.texture_format,
            }),
    {
        TextureMeta {
            id: self.id,
            unk_c: self.unk_c,
            unk_10: self.unk_10,
            unk_14: self.unk_14,
            unk_18: self.unk_18,
            texture_format: self.texture_format,
        }
    }

    /// Payload byte length declared by this header.
    pub fn data_size(&self) -> (r: u32)
        requires
            spec_data_size(self.texture_format, self.width, self.height) <= u32::MAX,
        ensures
            r == spec_data_size(self.texture_format, self.width, self.height),
    {
        self.meta().data_size(self.width, self.height)
    }
}

impl TextureMeta {
    /// Payload byte length of a raster of the given dimensions in this
    /// metadata's format.
    pub fn data_size(&self, width: u32, height: u32) -> (r: u32)
        requires
            spec_data_size(self.texture_format, width, height) <= u32::MAX,
        ensures
            r == spec_data_size(self.texture_format, width, height),
    {
        crate::pixel_format::data_size(self.texture_format, width, height)
    }
}

/// A texture: its metadata and its canonical raster.
pub struct Texture {
    pub meta: TextureMeta,
    pub data: Raster,
}

/// The mathematical image of a `Texture`.
pub struct TextureView {
    pub meta: TextureMeta,
    pub data: RasterView,
}

impl View for Texture {
    type V = TextureView;

    open spec fn view(&self) -> TextureView {
        TextureView { meta: self.meta, data: self.data@ }
    }
}

/// An ordered collection of textures, as parsed from or written to one
/// container.
pub struct TexturePackage {
    pub textures: Vec<Texture>,
}

impl View for TexturePackage {
    type V = Seq<TextureView>;

    open spec fn view(&self) -> Seq<TextureView> {
        self.textures@.map_values(|t: Texture| t@)
    }
}

/// Every texture's raster holds exactly the bytes its dimensions declare.
pub open spec fn pkg_wf(p: Seq<TextureView>) -> bool {
    forall|k: int| 0 <= k < p.len() ==> (#[trigger] p[k]).data.wf()
}

impl TexturePackage {
    /// Rewrite every texture's declared format, leaving the decoded pixel
    /// data untouched; the writer then re-encodes in the new format.
    pub fn force_format(&mut self, format: TextureFormat)
        ensures
            final(self)@.len() == old(self)@.len(),
            forall|k: int|
                0 <= k < old(self)@.len() ==> #[trigger] final(self)@[k] == (TextureView {
                    meta: (TextureMeta {
                        id: old(self)@[k].meta.id,
                        unk_c: old(self)@[k].meta.unk_c,
                        unk_10: old(self)@[k].meta.unk_10,
                        unk_14: old(self)@[k].meta.unk_14,
                        unk_18: old(self)@[k].meta.unk_18,
                        texture_format: format,
                    }),
                    data: old(self)@[k].data,
                }),
    {
        let n = self.textures.len();
        let mut i: usize = 0;
        while i < n
            invariant
                n == self.textures@.len(),
                i <= n,
                self.textures@.len() == old(self).textures@.len(),
                forall|k: int|
                    i <= k < n ==> #[trigger] self.textures@[k]@ == old(self).textures@[k]@,
                forall|k: int|
                    0 <= k < i ==> #[trigger] self.textures@[k]@ == (TextureView {
                        meta: (TextureMeta {
                            id: old(self).textures@[k]@.meta.id,
                            unk_c: old(self).textures@[k]@.meta.unk_c,
                            unk_10: old(self).textures@[k]@.meta.unk_10,
                            unk_14: old(self).textures@[k]@.meta.unk_14,
                            unk_18: old(self).textures@[k]@.meta.unk_18,
                            texture_format: format,
                        }),
                        data: old(self).textures@[k]@.data,
                    }),
            decreases n - i,
        {
            let ghost prev = self.textures@;
            let t = self.textures.remove(i);
            let ghost tv = t@;
            let updated = TextureMeta {
                id: t.meta.id,
                unk_c: t.meta.unk_c,
                unk_10: t.meta.unk_10,
                unk_14: t.meta.unk_14,
                unk_18: t.meta.unk_18,
                texture_format: format,
            };
            self.textures.insert(i, Texture { meta: updated, data: t.data });
            proof {
                assert(self.textures@.len() == prev.len());
                assert(forall|k: int|
                    0 <= k < prev.len() && k != i ==> #[trigger] self.textures@[k] == prev[k]);
                assert(self.textures@[i as int]@ == (TextureView {
                    meta: updated,
                    data: tv.data,
                }));
            }
            i = i + 1;
        }
    }
}

/// The 32-bit little-endian value at byte offset `off`.
pub open spec fn le32_at(b: Seq<u8>, off: int) -> u32 {
    (b[off] as u32) | ((b[off + 1] as u32) << 8) | ((b[off + 2] as u32) << 16) | ((b[off + 3]
        as u32) << 24)
}

/// What parsing one 36-byte texture-header record at `off`, and the payload
/// it points at, yields: the texture, or the first error met.
pub open spec fn parse_texture_at(b: Seq<u8>, off: int) -> Result<TextureView, TexError> {
    if off + 36 > b.len() {
        Err(TexError::MalformedContainer)
    } else {
        let width = le32_at(b, off + 4);
        let height = le32_at(b, off + 8);
        let code = le32_at(b, off + 28);
        let ptr = le32_at(b, off + 32);
        match TextureFormat::spec_from_code(code) {
            None => Err(TexError::UnknownFormat),
            Some(format) => {
                let size = spec_data_size(format, width, height);
                if ptr + size > b.len() {
                    Err(TexError::MalformedContainer)
                } else {
                    Ok(
                        TextureView {
                            meta: TextureMeta {
                                id: le32_at(b, off),
                                unk_c: le32_at(b, off + 12) as i32,
                                unk_10: le32_at(b, off + 16) as i32,
                                unk_14: le32_at(b, off + 20) as i32,
                                unk_18: le32_at(b, off + 24) as i32,
                                texture_format: format,
                            },
                            data: RasterView {
                                width,
                                height,
                                pixels: decode_payload(
                                    format,
                                    width,
                                    height,
                                    b.subrange(ptr as int, ptr + size),
                                ),
                            },
                        },
                    )
                }
            },
        }
    }
}

/// Parse `n` consecutive records starting at `off`, stopping at the first
/// error.
pub open spec fn parse_textures(b: Seq<u8>, off: int, n: nat) -> Result<Seq<TextureView>, TexError>
    decreases n,
{
    if n == 0 {
        Ok(Seq::empty())
    } else {
        match parse_texture_at(b, off) {
            Err(e) => Err(e),
            Ok(t) => match parse_textures(b, off + 36, (n - 1) as nat) {
                Err(e) => Err(e),
                Ok(rest) => Ok(seq![t] + rest),
            },
        }
    }
}

/// What parsing a whole container buffer yields: the count at offset 0, the
/// table pointer at offset 4, then that many records.
pub open spec fn parse_package(b: Seq<u8>) -> Result<Seq<TextureView>, TexError> {
    if b.len() < 8 {
        Err(TexError::MalformedContainer)
    } else {
        parse_textures(b, le32_at(b, 4) as int, le32_at(b, 0) as nat)
    }
}

fn le32(data: &[u8], off: usize) -> (r: u32)
    requires
        off + 4 <= data@.len(),
    ensures
        r == le32_at(data@, off as int),
{
    (data[off] as u32) | ((data[off + 1] as u32) << 8) | ((data[off + 2] as u32) << 16) | ((
    data[off + 3] as u32) << 24)
}

fn copy_range(data: &[u8], start: usize, n: usize) -> (out: Vec<u8>)
    requires
        start + n <= data@.len(),
    ensures
        out@ == data@.subrange(start as int, start as int + n),
{
    let len = data.len();
    let mut out: Vec<u8> = Vec::new();
    let mut k: usize = 0;
    while k < n
        invariant
            start + n <= data@.len(),
            data@.len() == len,
            k <= n,
            out@.len() == k,
            forall|j: int| 0 <= j < k ==> out@[j] == data@[start + j],
        decreases n - k,
    {
        out.push(data[start + k]);
        k = k + 1;
    }
    proof {
        assert(out@ =~= data@.subrange(start as int, start as int + n));
    }
    out
}

fn parse_one(data: &[u8], off: u64) -> (r: Result<Texture, TexError>)
    requires
        off + 36 <= u64::MAX,
    ensures
        (match r {
            Ok(t) => parse_texture_at(data@, off as int) == Ok::<TextureView, TexError>(t@) && t@.data.wf(),
            Err(e) => parse_texture_at(data@, off as int) == Err::<TextureView, TexError>(e),
        }),
{
    let len = data.len();
    if off + 36 > len as u64 {
        return Err(TexError::MalformedContainer);
    }
    let o = off as usize;
    let id = le32(data, o);
    let width = le32(data, o + 4);
    let height = le32(data, o + 8);
    let unk_c = le32(data, o + 12) as i32;
    let unk_10 = le32(data, o + 16) as i32;
    let unk_14 = le32(data, o + 20) as i32;
    let unk_18 = le32(data, o + 24) as i32;
    let code = le32(data, o + 28);
    let ptr = le32(data, o + 32);
    let format = match TextureFormat::from_code(code) {
        Ok(f) => f,
        Err(e) => {
            return Err(e);
        },
    };
    proof {
        vstd::arithmetic::mul::lemma_mul_upper_bound(
            width as int,
            u32::MAX as int,
            height as int,
            u32::MAX as int,
        );
    }
    let wh: u64 = (width as u64) * (height as u64);
    let bpp: u32 = format.bpp();
    proof {
        vstd::arithmetic::mul::lemma_mul_upper_bound(wh as int, u64::MAX as int, bpp as int, 4);
    }
    let size: u128 = (wh as u128) * (bpp as u128);
    if (ptr as u128) + size > (len as u128) {
        return Err(TexError::MalformedContainer);
    }
    let size_us: usize = size as usize;
    let payload = copy_range(data, ptr as usize, size_us);
    let args = TextureDataArgs { width, height, texture_format: format };
    let raster = match read_texture_data(payload.as_slice(), &args) {
        Ok(raster) => raster,
        Err(_) => {
            proof {
                assert(false);
            }
            return Err(TexError::MalformedContainer);
        },
    };
    let header = TextureHeader { id, width, height, unk_c, unk_10, unk_14, unk_18,
        texture_format: format };
    let meta = header.meta();
    Ok(Texture { meta, data: raster })
}

/// Parse a container buffer into its package: the reference semantics is
/// `parse_package`, error for error.
pub fn read_texture_package(data: &[u8]) -> (r: Result<TexturePackage, TexError>)
    ensures
        (match r {
            Ok(p) => parse_package(data@) == Ok::<Seq<TextureView>, TexError>(p@) && pkg_wf(p@),
            Err(e) => parse_package(data@) == Err::<Seq<TextureView>, TexError>(e),
        }),
{
    let len = data.len();
    if len < 8 {
        return Err(TexError::MalformedContainer);
    }
    let count = le32(data, 0);
    let table = le32(data, 4);
    let ghost b = data@;
    let mut textures: Vec<Texture> = Vec::new();
    let mut i: u32 = 0;
    proof {
        match parse_textures(b, table as int, count as nat) {
            Ok(rest) => {
                assert(Seq::<TextureView>::empty() + rest =~= rest);
            },
            Err(_) => {},
        }
        assert(textures@.map_values(|t: Texture| t@) =~= Seq::<TextureView>::empty());
    }
    while i < count
        invariant
            b == data@,
            b.len() >= 8,
            count == le32_at(b, 0),
            table == le32_at(b, 4),
            i <= count,
            textures@.len() == i,
            pkg_wf(textures@.map_values(|t: Texture| t@)),
            (match parse_textures(b, table as int + 36 * (i as int), (count - i) as nat) {
                Ok(rest) => parse_package(b) == Ok::<Seq<TextureView>, TexError>(
                    textures@.map_values(|t: Texture| t@) + rest,
                ),
                Err(e) => parse_package(b) == Err::<Seq<TextureView>, TexError>(e),
            }),
        decreases count - i,
    {
        let off: u64 = (table as u64) + 36 * (i as u64);
        let ghost pref = textures@.map_values(|t: Texture| t@);
        let ghost n_left = (count - i) as nat;
        proof {
            assert(parse_textures(b, off as int, n_left) == (match parse_texture_at(
                b,
                off as int,
            ) {
                Err(e) => Err::<Seq<TextureView>, TexError>(e),
                Ok(t) => match parse_textures(b, off as int + 36, (n_left - 1) as nat) {
                    Err(e) => Err(e),
                    Ok(rest) => Ok(seq![t] + rest),
                },
            }));
        }
        let t = match parse_one(data, off) {
            Ok(t) => t,
            Err(e) => {
                return Err(e);
            },
        };
        proof {
            let tv = t@;
            let new_pref = pref.push(tv);
            assert(textures@.push(t).map_values(|x: Texture| x@) =~= new_pref);
            match parse_textures(b, off as int + 36, (n_left - 1) as nat) {
                Ok(rest2) => {
                    assert(pref + (seq![tv] + rest2) =~= new_pref + rest2);
                },
                Err(_) => {},
            }
        }
        textures.push(t);
        i = i + 1;
    }
    proof {
        let pref = textures@.map_values(|t: Texture| t@);
        assert(parse_textures(b, table as int + 36 * (i as int), 0) == Ok::<
            Seq<TextureView>,
            TexError,
        >(Seq::<TextureView>::empty()));
        assert(pref + Seq::<TextureView>::empty() =~= pref);
    }
    Ok(TexturePackage { textures })
}

/// The four little-endian bytes of a 32-bit value.
pub open spec fn le32_bytes(v: u32) -> Seq<u8> {
    seq![
        (v & 0xff) as u8,
        ((v >> 8) & 0xff) as u8,
        ((v >> 16) & 0xff) as u8,
        ((v >> 24) & 0xff) as u8,
    ]
}

/// Payload byte length of one texture, from its raster's dimensions and its
/// declared format.
pub open spec fn tex_size(t: TextureView) -> int {
    spec_data_size(t.meta.texture_format, t.data.width, t.data.height)
}

/// Total payload byte length of the first `i` textures.
pub open spec fn size_sum(p: Seq<TextureView>, i: int) -> int
    decreases i,
{
    if i <= 0 {
        0
    } else {
        size_sum(p, i - 1) + tex_size(p[i - 1])
    }
}

/// Absolute offset of texture `i`'s payload: past the 32-byte header region,
/// the header table, and all preceding payloads.
pub open spec fn payload_ptr(p: Seq<TextureView>, i: int) -> int {
    0x20 + 36 * p.len() + size_sum(p, i)
}

/// The sums of payload sizes never decrease along the texture order.
pub proof fn lemma_size_sum_mono(p: Seq<TextureView>, i: int, j: int)
    requires
        0 <= i <= j,
    ensures
        size_sum(p, i) <= size_sum(p, j),
    decreases j - i,
{
    if i < j {
        lemma_size_sum_mono(p, i, j - 1);
        vstd::arithmetic::mul::lemma_mul_nonnegative(
            p[j - 1].data.width as int,
            p[j - 1].data.height as int,
        );
        assert(tex_size(p[j - 1]) >= 0) by (nonlinear_arith)
            requires
                tex_size(p[j - 1]) == p[j - 1].data.width as int * p[j - 1].data.height as int * p[j
                    - 1].meta.texture_format.spec_bpp(),
                p[j - 1].meta.texture_format.spec_bpp() >= 0,
        ;
    }
}

/// One 36-byte on-disk header record: id, dimensions taken from the raster,
/// the four opaque fields, the format discriminant, and the payload pointer.
pub open spec fn header_record(t: TextureView, ptr: u32) -> Seq<u8> {
    le32_bytes(t.meta.id) + le32_bytes(t.data.width) + le32_bytes(t.data.height) + le32_bytes(
        t.meta.unk_c as u32,
    ) + le32_bytes(t.meta.unk_10 as u32) + le32_bytes(t.meta.unk_14 as u32) + le32_bytes(
        t.meta.unk_18 as u32,
    ) + le32_bytes(t.meta.texture_format.spec_code()) + le32_bytes(ptr)
}

/// The header table of the first `i` textures.
pub open spec fn records_bytes(p: Seq<TextureView>, i: int) -> Seq<u8>
    decreases i,
{
    if i <= 0 {
        Seq::empty()
    } else {
        records_bytes(p, i - 1) + header_record(p[i - 1], payload_ptr(p, i - 1) as u32)
    }
}

/// The concatenated encoded payloads of the first `i` textures.
pub open spec fn payloads_bytes(p: Seq<TextureView>, i: int) -> Seq<u8>
    decreases i,
{
    if i <= 0 {
        Seq::empty()
    } else {
        payloads_bytes(p, i - 1) + encode_payload(
            p[i - 1].meta.texture_format,
            p[i - 1].data.width,
            p[i - 1].data.height,
            p[i - 1].data.pixels,
        )
    }
}

/// The fixed 32-byte header region: the count, the constant table pointer
/// `0x20`, and padding.
pub open spec fn container_prefix(p: Seq<TextureView>) -> Seq<u8> {
    le32_bytes(p.len() as u32) + le32_bytes(0x20) + Seq::new(24, |i: int| 0u8)
}

/// The bytes a package writes to: deterministic given the ordered textures,
/// or `UnsupportedDimensions` where a payload pointer would overflow the
/// 32-bit size domain.
pub open spec fn write_spec(p: Seq<TextureView>) -> Result<Seq<u8>, TexError> {
    if p.len() > u32::MAX || payload_ptr(p, p.len() as int) > u32::MAX {
        Err(TexError::UnsupportedDimensions)
    } else {
        Ok(
            container_prefix(p) + records_bytes(p, p.len() as int) + payloads_bytes(
                p,
                p.len() as int,
            ),
        )
    }
}

fn push_le32(buf: &mut Vec<u8>, v: u32)
    ensures
        final(buf)@ == old(buf)@ + le32_bytes(v),
{
    buf.push((v & 0xff) as u8);
    buf.push(((v >> 8) & 0xff) as u8);
    buf.push(((v >> 16) & 0xff) as u8);
    buf.push(((v >> 24) & 0xff) as u8);
    proof {
        assert(buf@ =~= old(buf)@ + le32_bytes(v));
    }
}

/// Write a package to container bytes: the reference semantics is
/// `write_spec`, error for error.
pub fn write_texture_package(data: &TexturePackage) -> (r: Result<Vec<u8>, TexError>)
    requires
        pkg_wf(data@),
    ensures
        (match r {
            Ok(bytes) => write_spec(data@) == Ok::<Seq<u8>, TexError>(bytes@),
            Err(e) => write_spec(data@) == Err::<Seq<u8>, TexError>(e),
        }),
{
    let ghost p = data@;
    let n = data.textures.len();
    if n as u64 > u32::MAX as u64 {
        return Err(TexError::UnsupportedDimensions);
    }
    let mut cur: u64 = 0x20 + 36 * (n as u64);
    let mut ptrs: Vec<u32> = Vec::new();
    let mut i: usize = 0;
    if cur > u32::MAX as u64 {
        proof {
            lemma_size_sum_mono(p, 0, p.len() as int);
        }
        return Err(TexError::UnsupportedDimensions);
    }
    while i < n
        invariant
            p == data@,
            n == p.len(),
            n <= u32::MAX,
            pkg_wf(p),
            i <= n,
            cur == payload_ptr(p, i as int),
            cur <= u32::MAX,
            ptrs@.len() == i,
            forall|k: int| 0 <= k < i ==> #[trigger] ptrs@[k] == payload_ptr(p, k) as u32,
        decreases n - i,
    {
        ptrs.push(cur as u32);
        let t = &data.textures[i];
        proof {
            assert(p[i as int] == data.textures@[i as int]@);
            vstd::arithmetic::mul::lemma_mul_upper_bound(
                t.data.width as int,
                u32::MAX as int,
                t.data.height as int,
                u32::MAX as int,
            );
        }
        let wh: u64 = (t.data.width as u64) * (t.data.height as u64);
        let bpp: u32 = t.meta.texture_format.bpp();
        proof {
            vstd::arithmetic::mul::lemma_mul_upper_bound(wh as int, u64::MAX as int, bpp as int, 4);
        }
        let size: u128 = (wh as u128) * (bpp as u128);
        if (cur as u128) + size > (u32::MAX as u128) {
            proof {
                assert(payload_ptr(p, i as int + 1) == cur + tex_size(p[i as int]));
                lemma_size_sum_mono(p, i as int + 1, p.len() as int);
            }
            return Err(TexError::UnsupportedDimensions);
        }
        cur = ((cur as u128) + size) as u64;
        proof {
            assert(payload_ptr(p, i as int + 1) == cur);
        }
        i = i + 1;
    }
    let count32: u32 = n as u32;
    let header = TexturePackageHeaderRaw { texture_count: count32, textures_ptr: 0x20 };
    let mut buf: Vec<u8> = Vec::new();
    push_le32(&mut buf, header.texture_count);
    push_le32(&mut buf, header.textures_ptr);
    let mut z: usize = 0;
    while z < 24
        invariant
            buf@.len() == 8 + z,
            z <= 24,
            buf@.subrange(0, 8) == le32_bytes(count32) + le32_bytes(0x20),
            forall|k: int| 8 <= k < buf@.len() ==> buf@[k] == 0u8,
        decreases 24 - z,
    {
        let ghost prevb = buf@;
        buf.push(0u8);
        proof {
            assert(buf@.subrange(0, 8) =~= prevb.subrange(0, 8));
        }
        z = z + 1;
    }
    proof {
        assert(buf@ =~= container_prefix(p));
    }
    let mut i2: usize = 0;
    while i2 < n
        invariant
            p == data@,
            n == p.len(),
            n <= u32::MAX,
            pkg_wf(p),
            count32 == n,
            i2 <= n,
            ptrs@.len() == n,
            forall|k: int| 0 <= k < n ==> #[trigger] ptrs@[k] == payload_ptr(p, k) as u32,
            buf@ == container_prefix(p) + records_bytes(p, i2 as int),
        decreases n - i2,
    {
        let t = &data.textures[i2];
        proof {
            assert(p[i2 as int] == data.textures@[i2 as int]@);
        }
        push_le32(&mut buf, t.meta.id);
        push_le32(&mut buf, t.data.width);
        push_le32(&mut buf, t.data.height);
        push_le32(&mut buf, t.meta.unk_c as u32);
        push_le32(&mut buf, t.meta.unk_10 as u32);
        push_le32(&mut buf, t.meta.unk_14 as u32);
        push_le32(&mut buf, t.meta.unk_18 as u32);
        push_le32(&mut buf, t.meta.texture_format.code());
        push_le32(&mut buf, ptrs[i2]);
        proof {
            assert(buf@ =~= container_prefix(p) + records_bytes(p, i2 as int + 1));
        }
        i2 = i2 + 1;
    }
    let ghost mid = container_prefix(p) + records_bytes(p, n as int);
    let mut i3: usize = 0;
    while i3 < n
        invariant
            p == data@,
            n == p.len(),
            pkg_wf(p),
            i3 <= n,
            mid == container_prefix(p) + records_bytes(p, n as int),
            buf@ == mid + payloads_bytes(p, i3 as int),
        decreases n - i3,
    {
        let t = &data.textures[i3];
        proof {
            assert(p[i3 as int] == data.textures@[i3 as int]@);
        }
        let mut payload = crate::codec::encode_texture_data(&t.data, t.meta.texture_format);
        buf.append(&mut payload);
        proof {
            assert(buf@ =~= mid + payloads_bytes(p, i3 as int + 1));
        }
        i3 = i3 + 1;
    }
    proof {
        assert(buf@ =~= container_prefix(p) + records_bytes(p, p.len() as int) + payloads_bytes(
            p,
            p.len() as int,
        ));
    }
    Ok(buf)
}

proof fn lemma_records_len(p: Seq<TextureView>, i: int)
    requires
        0 <= i,
    ensures
        records_bytes(p, i).len() == 36 * i,
    decreases i,
{
    if i > 0 {
        lemma_records_len(p, i - 1);
    }
}

proof fn lemma_payloads_len(p: Seq<TextureView>, i: int)
    requires
        0 <= i,
    ensures
        payloads_bytes(p, i).len() == size_sum(p, i),
    decreases i,
{
    if i > 0 {
        lemma_payloads_len(p, i - 1);
        let t = p[i - 1];
        let wh = t.data.width as int * t.data.height as int;
        assert(encode_payload(
            t.meta.texture_format,
            t.data.width,
            t.data.height,
            t.data.pixels,
        ).len() == t.meta.texture_format.spec_bpp() * wh);
        assert(t.meta.texture_format.spec_bpp() * wh == tex_size(t)) by (nonlinear_arith)
            requires
                tex_size(t) == t.data.width as int * t.data.height as int
                    * t.meta.texture_format.spec_bpp(),
                wh == t.data.width as int * t.data.height as int,
        ;
    }
}

proof fn lemma_records_index(p: Seq<TextureView>, j: int, i: int, k: int)
    requires
        0 <= i < j <= p.len(),
        0 <= k < 36,
    ensures
        records_bytes(p, j).len() == 36 * j,
        records_bytes(p, j)[36 * i + k] == header_record(p[i], payload_ptr(p, i) as u32)[k],
    decreases j,
{
    lemma_records_len(p, j);
    lemma_records_len(p, j - 1);
    assert(header_record(p[j - 1], payload_ptr(p, j - 1) as u32).len() == 36);
    if i == j - 1 {
    } else {
        lemma_records_index(p, j - 1, i, k);
    }
}

proof fn lemma_payloads_index(p: Seq<TextureView>, j: int, i: int, k: int)
    requires
        0 <= i < j <= p.len(),
        0 <= k < tex_size(p[i]),
    ensures
        payloads_bytes(p, j).len() == size_sum(p, j),
        payloads_bytes(p, j)[size_sum(p, i) + k] == encode_payload(
            p[i].meta.texture_format,
            p[i].data.width,
            p[i].data.height,
            p[i].data.pixels,
        )[k],
    decreases j,
{
    lemma_payloads_len(p, j);
    lemma_payloads_len(p, j - 1);
    lemma_size_sum_mono(p, 0, i);
    lemma_size_sum_mono(p, 0, j - 1);
    let t = p[j - 1];
    let wh = t.data.width as int * t.data.height as int;
    vstd::arithmetic::mul::lemma_mul_nonnegative(t.data.width as int, t.data.height as int);
    let enc = encode_payload(t.meta.texture_format, t.data.width, t.data.height, t.data.pixels);
    assert((t.data.width * t.data.height) as nat == wh);
    assert(enc.len() == t.meta.texture_format.spec_bpp() * wh);
    assert(t.meta.texture_format.spec_bpp() * wh == tex_size(t)) by (nonlinear_arith)
        requires
            tex_size(t) == t.data.width as int * t.data.height as int
                * t.meta.texture_format.spec_bpp(),
            wh == t.data.width as int * t.data.height as int,
    ;
    assert(payloads_bytes(p, j) == payloads_bytes(p, j - 1) + enc);
    if i == j - 1 {
        assert((payloads_bytes(p, j - 1) + enc)[size_sum(p, j - 1) + k] == enc[k]);
    } else {
        lemma_payloads_index(p, j - 1, i, k);
        assert(size_sum(p, i + 1) == size_sum(p, i) + tex_size(p[i]));
        lemma_size_sum_mono(p, i + 1, j - 1);
        assert(size_sum(p, i) + k < size_sum(p, j - 1));
        assert((payloads_bytes(p, j - 1) + enc)[size_sum(p, i) + k] == payloads_bytes(p, j - 1)[
            size_sum(p, i) + k]);
    }
}

proof fn lemma_le32_of_bytes(b: Seq<u8>, off: int, v: u32)
    requires
        0 <= off,
        off + 4 <= b.len(),
        b[off] == le32_bytes(v)[0],
        b[off + 1] == le32_bytes(v)[1],
        b[off + 2] == le32_bytes(v)[2],
        b[off + 3] == le32_bytes(v)[3],
    ensures
        le32_at(b, off) == v,
{
    assert(((v & 0xff) as u8 as u32) | ((((v >> 8) & 0xff) as u8 as u32) << 8) | ((((v >> 16)
        & 0xff) as u8 as u32) << 16) | ((((v >> 24) & 0xff) as u8 as u32) << 24) == v) by (
    bit_vector);
}

proof fn lemma_i32_cast_round(x: i32)
    by (bit_vector)
    ensures
        (x as u32) as i32 == x,
{
}

/// The nine 32-bit fields a header record is laid out from, by field index.
spec fn record_field(t: TextureView, ptr: u32, m: int) -> u32 {
    if m == 0 {
        t.meta.id
    } else if m == 1 {
        t.data.width
    } else if m == 2 {
        t.data.height
    } else if m == 3 {
        t.meta.unk_c as u32
    } else if m == 4 {
        t.meta.unk_10 as u32
    } else if m == 5 {
        t.meta.unk_14 as u32
    } else if m == 6 {
        t.meta.unk_18 as u32
    } else if m == 7 {
        t.meta.texture_format.spec_code()
    } else {
        ptr
    }
}

proof fn lemma_header_record_field(t: TextureView, ptr: u32, m: int, k: int)
    requires
        0 <= m < 9,
        0 <= k < 4,
    ensures
        header_record(t, ptr).len() == 36,
        header_record(t, ptr)[4 * m + k] == le32_bytes(record_field(t, ptr, m))[k],
{
}

proof fn lemma_parse_textures_all(b: Seq<u8>, off: int, q: Seq<TextureView>)
    requires
        forall|i: int|
            0 <= i < q.len() ==> parse_texture_at(b, off + 36 * i) == Ok::<TextureView, TexError>(
                #[trigger] q[i],
            ),
    ensures
        parse_textures(b, off, q.len() as nat) == Ok::<Seq<TextureView>, TexError>(q),
    decreases q.len(),
{
    if q.len() == 0 {
        assert(q =~= Seq::<TextureView>::empty());
    } else {
        assert(parse_texture_at(b, off + 36 * 0) == Ok::<TextureView, TexError>(q[0]));
        let rest = q.drop_first();
        assert forall|i: int| 0 <= i < rest.len() implies parse_texture_at(b, off + 36 + 36 * i)
            == Ok::<TextureView, TexError>(#[trigger] rest[i]) by {
            assert(parse_texture_at(b, off + 36 * (i + 1)) == Ok::<TextureView, TexError>(q[i + 1]));
        }
        lemma_parse_textures_all(b, off + 36, rest);
        assert(seq![q[0]] + rest =~= q);
    }
}

/// Writing and re-parsing an R8G8B8A8 package gives the package back
/// exactly, so writing it again gives the very same bytes: the container
/// layout is stable through a parse/write round trip.
#[verifier::rlimit(100)]
#[verifier::spinoff_prover]
proof fn lemma_parse_one_of_write(p: Seq<TextureView>, i: int)
    requires
        pkg_wf(p),
        forall|k: int|
            0 <= k < p.len() ==> (#[trigger] p[k]).meta.texture_format
                == TextureFormat::R8G8B8A8,
        write_spec(p) is Ok,
        0 <= i < p.len(),
    ensures
        parse_texture_at(write_spec(p)->Ok_0, 0x20 + 36 * i) == Ok::<TextureView, TexError>(p[i]),
{
    let n = p.len() as int;
    let b = write_spec(p)->Ok_0;
    let prefix = container_prefix(p);
    let records = records_bytes(p, n);
    let payloads = payloads_bytes(p, n);
    lemma_records_len(p, n);
    lemma_payloads_len(p, n);
    lemma_size_sum_mono(p, 0, n);
    assert(prefix.len() == 32);
    assert(b == prefix + records + payloads);
    assert(b.len() == payload_ptr(p, n));

        let t = p[i];
        let off = 0x20 + 36 * i;
        let ptr = payload_ptr(p, i);
        let size = tex_size(t);
        lemma_size_sum_mono(p, 0, i);
        lemma_size_sum_mono(p, i + 1, n);
        assert(size >= 0) by (nonlinear_arith)
            requires
                size == t.data.width as int * t.data.height as int
                    * t.meta.texture_format.spec_bpp(),
                t.meta.texture_format.spec_bpp() >= 0,
        ;
        assert(payload_ptr(p, i + 1) == ptr + size);
        assert(36 * i + 36 <= 36 * n) by (nonlinear_arith)
            requires
                i < n,
        ;
        assert(off + 36 <= b.len());
        assert(le32_at(b, off + 4 * 0) == t.meta.id) by {
            lemma_records_index(p, n, i, 4 * 0int + 0);
            lemma_header_record_field(t, ptr as u32, 0int, 0);
            assert((prefix + records + payloads)[off + 4 * 0 + 0] == records[36 * i + 4 * 0 + 0]);
            lemma_records_index(p, n, i, 4 * 0int + 1);
            lemma_header_record_field(t, ptr as u32, 0int, 1);
            assert((prefix + records + payloads)[off + 4 * 0 + 1] == records[36 * i + 4 * 0 + 1]);
            lemma_records_index(p, n, i, 4 * 0int + 2);
            lemma_header_record_field(t, ptr as u32, 0int, 2);
            assert((prefix + records + payloads)[off + 4 * 0 + 2] == records[36 * i + 4 * 0 + 2]);
            lemma_records_index(p, n, i, 4 * 0int + 3);
            lemma_header_record_field(t, ptr as u32, 0int, 3);
            assert((prefix + records + payloads)[off + 4 * 0 + 3] == records[36 * i + 4 * 0 + 3]);
            lemma_le32_of_bytes(b, off + 4 * 0, record_field(t, ptr as u32, 0));
        }
        assert(le32_at(b, off + 4 * 1) == t.data.width) by {
            lemma_records_index(p, n, i, 4 * 1int + 0);
            lemma_header_record_field(t, ptr as u32, 1int, 0);
            assert((prefix + records + payloads)[off + 4 * 1 + 0] == records[36 * i + 4 * 1 + 0]);
            lemma_records_index(p, n, i, 4 * 1int + 1);
            lemma_header_record_field(t, ptr as u32, 1int, 1);
            assert((prefix + records + payloads)[off + 4 * 1 + 1] == records[36 * i + 4 * 1 + 1]);
            lemma_records_index(p, n, i, 4 * 1int + 2);
            lemma_header_record_field(t, ptr as u32, 1int, 2);
            assert((prefix + records + payloads)[off + 4 * 1 + 2] == records[36 * i + 4 * 1 + 2]);
            lemma_records_index(p, n, i, 4 * 1int + 3);
            lemma_header_record_field(t, ptr as u32, 1int, 3);
            assert((prefix + records + payloads)[off + 4 * 1 + 3] == records[36 * i + 4 * 1 + 3]);
            lemma_le32_of_bytes(b, off + 4 * 1, record_field(t, ptr as u32, 1));
        }
        assert(le32_at(b, off + 4 * 2) == t.data.height) by {
            lemma_records_index(p, n, i, 4 * 2int + 0);
            lemma_header_record_field(t, ptr as u32, 2int, 0);
            assert((prefix + records + payloads)[off + 4 * 2 + 0] == records[36 * i + 4 * 2 + 0]);
            lemma_records_index(p, n, i, 4 * 2int + 1);
            lemma_header_record_field(t, ptr as u32, 2int, 1);
            assert((prefix + records + payloads)[off + 4 * 2 + 1] == records[36 * i + 4 * 2 + 1]);
            lemma_records_index(p, n, i, 4 * 2int + 2);
            lemma_header_record_field(t, ptr as u32, 2int, 2);
            assert((prefix + records + payloads)[off + 4 * 2 + 2] == records[36 * i + 4 * 2 + 2]);
            lemma_records_index(p, n, i, 4 * 2int + 3);
            lemma_header_record_field(t, ptr as u32, 2int, 3);
            assert((prefix + records + payloads)[off + 4 * 2 + 3] == records[36 * i + 4 * 2 + 3]);
            lemma_le32_of_bytes(b, off + 4 * 2, record_field(t, ptr as u32, 2));
        }
        assert(le32_at(b, off + 4 * 3) == t.meta.unk_c as u32) by {
            lemma_records_index(p, n, i, 4 * 3int + 0);
            lemma_header_record_field(t, ptr as u32, 3int, 0);
            assert((prefix + records + payloads)[off + 4 * 3 + 0] == records[36 * i + 4 * 3 + 0]);
            lemma_records_index(p, n, i, 4 * 3int + 1);
            lemma_header_record_field(t, ptr as u32, 3int, 1);
            assert((prefix + records + payloads)[off + 4 * 3 + 1] == records[36 * i + 4 * 3 + 1]);
            lemma_records_index(p, n, i, 4 * 3int + 2);
            lemma_header_record_field(t, ptr as u32, 3int, 2);
            assert((prefix + records + payloads)[off + 4 * 3 + 2] == records[36 * i + 4 * 3 + 2]);
            lemma_records_index(p, n, i, 4 * 3int + 3);
            lemma_header_record_field(t, ptr as u32, 3int, 3);
            assert((prefix + records + payloads)[off + 4 * 3 + 3] == records[36 * i + 4 * 3 + 3]);
            lemma_le32_of_bytes(b, off + 4 * 3, record_field(t, ptr as u32, 3));
        }
        assert(le32_at(b, off + 4 * 4) == t.meta.unk_10 as u32) by {
            lemma_records_index(p, n, i, 4 * 4int + 0);
            lemma_header_record_field(t, ptr as u32, 4int, 0);
            assert((prefix + records + payloads)[off + 4 * 4 + 0] == records[36 * i + 4 * 4 + 0]);
            lemma_records_index(p, n, i, 4 * 4int + 1);
            lemma_header_record_field(t, ptr as u32, 4int, 1);
            assert((prefix + records + payloads)[off + 4 * 4 + 1] == records[36 * i + 4 * 4 + 1]);
            lemma_records_index(p, n, i, 4 * 4int + 2);
            lemma_header_record_field(t, ptr as u32, 4int, 2);
            assert((prefix + records + payloads)[off + 4 * 4 + 2] == records[36 * i + 4 * 4 + 2]);
            lemma_records_index(p, n, i, 4 * 4int + 3);
            lemma_header_record_field(t, ptr as u32, 4int, 3);
            assert((prefix + records + payloads)[off + 4 * 4 + 3] == records[36 * i + 4 * 4 + 3]);
            lemma_le32_of_bytes(b, off + 4 * 4, record_field(t, ptr as u32, 4));
        }
        assert(le32_at(b, off + 4 * 5) == t.meta.unk_14 as u32) by {
            lemma_records_index(p, n, i, 4 * 5int + 0);
            lemma_header_record_field(t, ptr as u32, 5int, 0);
            assert((prefix + records + payloads)[off + 4 * 5 + 0] == records[36 * i + 4 * 5 + 0]);
            lemma_records_index(p, n, i, 4 * 5int + 1);
            lemma_header_record_field(t, ptr as u32, 5int, 1);
            assert((prefix + records + payloads)[off + 4 * 5 + 1] == records[36 * i + 4 * 5 + 1]);
            lemma_records_index(p, n, i, 4 * 5int + 2);
            lemma_header_record_field(t, ptr as u32, 5int, 2);
            assert((prefix + records + payloads)[off + 4 * 5 + 2] == records[36 * i + 4 * 5 + 2]);
            lemma_records_index(p, n, i, 4 * 5int + 3);
            lemma_header_record_field(t, ptr as u32, 5int, 3);
            assert((prefix + records + payloads)[off + 4 * 5 + 3] == records[36 * i + 4 * 5 + 3]);
            lemma_le32_of_bytes(b, off + 4 * 5, record_field(t, ptr as u32, 5));
        }
        assert(le32_at(b, off + 4 * 6) == t.meta.unk_18 as u32) by {
            lemma_records_index(p, n, i, 4 * 6int + 0);
            lemma_header_record_field(t, ptr as u32, 6int, 0);
            assert((prefix + records + payloads)[off + 4 * 6 + 0] == records[36 * i + 4 * 6 + 0]);
            lemma_records_index(p, n, i, 4 * 6int + 1);
            lemma_header_record_field(t, ptr as u32, 6int, 1);
            assert((prefix + records + payloads)[off + 4 * 6 + 1] == records[36 * i + 4 * 6 + 1]);
            lemma_records_index(p, n, i, 4 * 6int + 2);
            lemma_header_record_field(t, ptr as u32, 6int, 2);
            assert((prefix + records + payloads)[off + 4 * 6 + 2] == records[36 * i + 4 * 6 + 2]);
            lemma_records_index(p, n, i, 4 * 6int + 3);
            lemma_header_record_field(t, ptr as u32, 6int, 3);
            assert((prefix + records + payloads)[off + 4 * 6 + 3] == records[36 * i + 4 * 6 + 3]);
            lemma_le32_of_bytes(b, off + 4 * 6, record_field(t, ptr as u32, 6));
        }
        assert(le32_at(b, off + 4 * 7) == t.meta.texture_format.spec_code()) by {
            lemma_records_index(p, n, i, 4 * 7int + 0);
            lemma_header_record_field(t, ptr as u32, 7int, 0);
            assert((prefix + records + payloads)[off + 4 * 7 + 0] == records[36 * i + 4 * 7 + 0]);
            lemma_records_index(p, n, i, 4 * 7int + 1);
            lemma_header_record_field(t, ptr as u32, 7int, 1);
            assert((prefix + records + payloads)[off + 4 * 7 + 1] == records[36 * i + 4 * 7 + 1]);
            lemma_records_index(p, n, i, 4 * 7int + 2);
            lemma_header_record_field(t, ptr as u32, 7int, 2);
            assert((prefix + records + payloads)[off + 4 * 7 + 2] == records[36 * i + 4 * 7 + 2]);
            lemma_records_index(p, n, i, 4 * 7int + 3);
            lemma_header_record_field(t, ptr as u32, 7int, 3);
            assert((prefix + records + payloads)[off + 4 * 7 + 3] == records[36 * i + 4 * 7 + 3]);
            lemma_le32_of_bytes(b, off + 4 * 7, record_field(t, ptr as u32, 7));
        }
        assert(le32_at(b, off + 4 * 8) == ptr as u32) by {
            lemma_records_index(p, n, i, 4 * 8int + 0);
            lemma_header_record_field(t, ptr as u32, 8int, 0);
            assert((prefix + records + payloads)[off + 4 * 8 + 0] == records[36 * i + 4 * 8 + 0]);
            lemma_records_index(p, n, i, 4 * 8int + 1);
            lemma_header_record_field(t, ptr as u32, 8int, 1);
            assert((prefix + records + payloads)[off + 4 * 8 + 1] == records[36 * i + 4 * 8 + 1]);
            lemma_records_index(p, n, i, 4 * 8int + 2);
            lemma_header_record_field(t, ptr as u32, 8int, 2);
            assert((prefix + records + payloads)[off + 4 * 8 + 2] == records[36 * i + 4 * 8 + 2]);
            lemma_records_index(p, n, i, 4 * 8int + 3);
            lemma_header_record_field(t, ptr as u32, 8int, 3);
            assert((prefix + records + payloads)[off + 4 * 8 + 3] == records[36 * i + 4 * 8 + 3]);
            lemma_le32_of_bytes(b, off + 4 * 8, record_field(t, ptr as u32, 8));
        }
        lemma_i32_cast_round(t.meta.unk_c);
        lemma_i32_cast_round(t.meta.unk_10);
        lemma_i32_cast_round(t.meta.unk_14);
        lemma_i32_cast_round(t.meta.unk_18);
        assert(TextureFormat::spec_from_code(t.meta.texture_format.spec_code()) == Some(
            t.meta.texture_format,
        ));
        let enc = encode_payload(
            t.meta.texture_format,
            t.data.width,
            t.data.height,
            t.data.pixels,
        );
        assert(b.subrange(ptr, ptr + size) =~= enc) by {
            assert(enc.len() == size) by {
                lemma_payloads_len(p, i + 1);
                lemma_payloads_len(p, i);
            }
            assert forall|k: int| 0 <= k < size implies b[ptr + k] == enc[k] by {
                lemma_payloads_index(p, n, i, k);
                assert((prefix + records + payloads)[32 + 36 * n + (size_sum(p, i) + k)]
                    == payloads[size_sum(p, i) + k]);
            }
        }
        crate::codec::lemma_r8g8b8a8_round_trip(t.data.width, t.data.height, t.data.pixels);
        assert(decode_payload(
            t.meta.texture_format,
            t.data.width,
            t.data.height,
            b.subrange(ptr, ptr + size),
        ) == t.data.pixels);
        assert(parse_texture_at(b, off) == Ok::<TextureView, TexError>(
            TextureView {
                meta: t.meta,
                data: RasterView {
                    width: t.data.width,
                    height: t.data.height,
                    pixels: t.data.pixels,
                },
            },
        ));
        assert(t == (TextureView {
            meta: t.meta,
            data: RasterView { width: t.data.width, height: t.data.height, pixels: t.data.pixels },
        }));
}

#[verifier::rlimit(50)]
pub proof fn lemma_container_round_trip(p: Seq<TextureView>)
    requires
        pkg_wf(p),
        forall|k: int|
            0 <= k < p.len() ==> (#[trigger] p[k]).meta.texture_format
                == TextureFormat::R8G8B8A8,
        write_spec(p) is Ok,
    ensures
        parse_package(write_spec(p)->Ok_0) == Ok::<Seq<TextureView>, TexError>(p),
        write_spec(parse_package(write_spec(p)->Ok_0)->Ok_0) == write_spec(p),
{
    let n = p.len() as int;
    let b = write_spec(p)->Ok_0;
    let prefix = container_prefix(p);
    let records = records_bytes(p, n);
    let payloads = payloads_bytes(p, n);
    lemma_records_len(p, n);
    lemma_payloads_len(p, n);
    lemma_size_sum_mono(p, 0, n);
    assert(prefix.len() == 32);
    assert(b == prefix + records + payloads);
    assert(b.len() == payload_ptr(p, n));
    let count32 = p.len() as u32;
    assert(le32_at(b, 0) == count32) by {
        lemma_le32_of_bytes(b, 0, count32);
    }
    assert(le32_at(b, 4) == 0x20) by {
        lemma_le32_of_bytes(b, 4, 0x20);
    }
    assert forall|i: int| 0 <= i < n implies parse_texture_at(b, 0x20 + 36 * i) == Ok::<
        TextureView,
        TexError,
    >(#[trigger] p[i]) by {
        lemma_parse_one_of_write(p, i);
    }
    lemma_parse_textures_all(b, 0x20, p);
    assert((count32 as nat) == p.len());
    assert(parse_package(b) == parse_textures(b, 0x20, p.len()));
}

} // verus!
