//! The closed set of on-disk pixel encodings, their discriminants and
//! bytes-per-pixel, and the payload-size computation shared by the container
//! reader and writer.

use vstd::prelude::*;

verus! {

/// The four packed on-disk pixel encodings.
#[derive(Clone, Copy, Debug, PartialEq, Eq, Structural)]
pub enum TextureFormat {
    R5G5B5A1,
    R4G4B4A4,
    R5G6B5,
    R8G8B8A8,
}

/// Errors of the container codec and of directory assembly.
#[derive(Clone, Copy, Debug, PartialEq, Eq, Structural)]
pub enum TexError {
    /// Truncated buffer, out-of-range pointer, or a declared size that does
    /// not fit the remaining buffer.
    MalformedContainer,
    /// A format discriminant outside the four known values.
    UnknownFormat,
    /// An image file lacking its paired metadata sidecar.
    MissingMetadata,
    /// A payload-size computation that overflows the 32-bit size domain.
    UnsupportedDimensions,
}

impl TextureFormat {
    /// The on-disk discriminant of this format.
    pub open spec fn spec_code(self) -> u32 {
        match self {
            TextureFormat::R5G5B5A1 => 0,
            TextureFormat::R4G4B4A4 => 1,
            TextureFormat::R5G6B5 => 2,
            TextureFormat::R8G8B8A8 => 3,
        }
    }

    pub fn code(self) -> (r: u32)
        ensures
            r == self.spec_code(),
    {
        match self {
            TextureFormat::R5G5B5A1 => 0,
            TextureFormat::R4G4B4A4 => 1,
            TextureFormat::R5G6B5 => 2,
            TextureFormat::R8G8B8A8 => 3,
        }
    }

    /// The format a discriminant stands for, if it is one of the four.
    pub open spec fn spec_from_code(code: u32) -> Option<TextureFormat> {
        if code == 0 {
            Some(TextureFormat::R5G5B5A1)
        } else if code == 1 {
            Some(TextureFormat::R4G4B4A4)
        } else if code == 2 {
            Some(TextureFormat::R5G6B5)
        } else if code == 3 {
            Some(TextureFormat::R8G8B8A8)
        } else {
            None
        }
    }

    pub fn from_code(code: u32) -> (r: Result<TextureFormat, TexError>)
        ensures
            (match Self::spec_from_code(code) {
                Some(f) => r == Ok::<TextureFormat, TexError>(f),
                None => r == Err::<TextureFormat, TexError>(TexError::UnknownFormat),
            }),
    {
        if code == 0 {
            Ok(TextureFormat::R5G5B5A1)
        } else if code == 1 {
            Ok(TextureFormat::R4G4B4A4)
        } else if code == 2 {
            Ok(TextureFormat::R5G6B5)
        } else if code == 3 {
            Ok(TextureFormat::R8G8B8A8)
        } else {
            Err(TexError::UnknownFormat)
        }
    }

    /// Bytes per pixel of the packed on-disk representation.
    pub open spec fn spec_bpp(self) -> nat {
        match self {
            TextureFormat::R5G5B5A1 => 2,
            TextureFormat::R4G4B4A4 => 2,
            TextureFormat::R5G6B5 => 2,
            TextureFormat::R8G8B8A8 => 4,
        }
    }

    pub fn bpp(self) -> (r: u32)
        ensures
            r == self.spec_bpp(),
    {
        match self {
            TextureFormat::R5G5B5A1 => 2,
            TextureFormat::R4G4B4A4 => 2,
            TextureFormat::R5G6B5 => 2,
            TextureFormat::R8G8B8A8 => 4,
        }
    }
}

/// Byte length of a texture's pixel payload: width times height times
/// bytes-per-pixel of the packed format.
pub open spec fn spec_data_size(format: TextureFormat, width: u32, height: u32) -> int {
    width * height * format.spec_bpp()
}

proof fn lemma_data_size_cases(format: TextureFormat, width: u32, height: u32)
    ensures
        spec_data_size(format, width, height) == width as int * height as int * 2
            || spec_data_size(format, width, height) == width as int * height as int * 4,
        spec_data_size(format, width, height) >= 0,
{
    let wh = width as int * height as int;
    vstd::arithmetic::mul::lemma_mul_nonnegative(width as int, height as int);
    if format.spec_bpp() == 2 {
        assert(spec_data_size(format, width, height) == wh * 2);
    } else {
        assert(spec_data_size(format, width, height) == wh * 4);
    }
}

pub fn data_size(format: TextureFormat, width: u32, height: u32) -> (r: u32)
    requires
        spec_data_size(format, width, height) <= u32::MAX,
    ensures
        r == spec_data_size(format, width, height),
{
    proof {
        lemma_data_size_cases(format, width, height);
        vstd::arithmetic::mul::lemma_mul_upper_bound(
            width as int,
            u32::MAX as int,
            height as int,
            u32::MAX as int,
        );
    }
    let bpp: u64 = format.bpp() as u64;
    let wh: u64 = width as u64 * height as u64;
    (wh * bpp) as u32
}

} // verus!
