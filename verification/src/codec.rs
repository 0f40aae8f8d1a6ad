//! The two supported codec families: how a NAL header is read, which unit
//! types carry slices, which of those mark a refresh picture, and where
//! the "first slice of picture" bit is found.

use vstd::prelude::*;

verus! {

/// The role of a NAL unit in the picture structure of a stream.
#[derive(Clone, Copy, Debug, PartialEq, Eq, Structural)]
pub enum NalClass {
    /// Parameter or metadata unit; it may lead the picture that follows.
    NonVcl,
    /// Slice data. `refresh` tells whether the type marks a refresh picture.
    Vcl { refresh: bool },
    /// Metadata unit that trails the picture just closed.
    SuffixNonVcl,
}

/// A codec family. The two share one scanning algorithm and differ only in
/// the constants and rules below.
#[derive(Clone, Copy, Debug, PartialEq, Eq, Structural)]
pub enum CodecProfile {
    /// One header byte, type in its low five bits.
    H264,
    /// Two header bytes, type in bits 1 to 6 of the first.
    H265,
}

/// The "first slice of picture" flag is the high bit of the byte that
/// follows the NAL header.
pub open spec fn first_slice_bit(probe: u8) -> bool {
    probe >= 0x80
}

/// Reads the "first slice of picture" flag from the probe byte.
pub fn read_first_slice_bit(probe: u8) -> (set: bool)
    ensures
        set == first_slice_bit(probe),
{
    assert((probe >> 7 != 0) == (probe >= 0x80)) by (bit_vector);
    (probe >> 7) != 0
}

impl CodecProfile {
    /// Number of bytes in a NAL header.
    pub open spec fn header_len(self) -> int {
        match self {
            CodecProfile::H264 => 1,
            CodecProfile::H265 => 2,
        }
    }

    /// The raw type code held in the first header byte.
    pub open spec fn type_of(self, first: u8) -> u8 {
        match self {
            CodecProfile::H264 => first & 0x1f,
            CodecProfile::H265 => (first & 0x7e) >> 1,
        }
    }

    /// Whether units of this type carry slice data.
    pub open spec fn is_vcl(self, nal_type: u8) -> bool {
        match self {
            CodecProfile::H264 => nal_type <= 5,
            CodecProfile::H265 => nal_type <= 23,
        }
    }

    /// Whether this slice type marks a refresh picture.
    pub open spec fn is_refresh(self, nal_type: u8) -> bool {
        match self {
            CodecProfile::H264 => nal_type == 5,
            CodecProfile::H265 => nal_type == 19 || nal_type == 20,
        }
    }

    /// Whether this type is the suffix type, which belongs to the picture
    /// before it.
    pub open spec fn is_suffix(self, nal_type: u8) -> bool {
        match self {
            CodecProfile::H264 => false,
            CodecProfile::H265 => nal_type == 40,
        }
    }

    /// Whether the scanner reads the first-slice bit of units of this type.
    /// Slice types that are not probed always continue the current picture.
    pub open spec fn is_probed(self, nal_type: u8) -> bool {
        match self {
            CodecProfile::H264 => nal_type == 1 || nal_type == 2 || nal_type == 5,
            CodecProfile::H265 => nal_type <= 23,
        }
    }

    /// Whether units of this type hold sequence or picture parameters that
    /// later pictures need.
    pub open spec fn is_parameter_set(self, nal_type: u8) -> bool {
        match self {
            CodecProfile::H264 => nal_type == 7 || nal_type == 8,
            CodecProfile::H265 => nal_type == 32 || nal_type == 33 || nal_type == 34,
        }
    }

    /// The class of the units with a given type code.
    pub open spec fn class_of_type(self, nal_type: u8) -> NalClass {
        if self.is_vcl(nal_type) {
            NalClass::Vcl { refresh: self.is_refresh(nal_type) }
        } else if self.is_suffix(nal_type) {
            NalClass::SuffixNonVcl
        } else {
            NalClass::NonVcl
        }
    }

    /// The class of a unit, from its first header byte.
    pub open spec fn class_of(self, first: u8) -> NalClass {
        self.class_of_type(self.type_of(first))
    }

    /// Bytes the scanner reads after a start code to place a unit of this
    /// type: the header, and one more byte where the type is probed.
    pub open spec fn span_of(self, nal_type: u8) -> int {
        if self.is_probed(nal_type) {
            self.header_len() + 1
        } else {
            self.header_len()
        }
    }

    /// Number of bytes in a NAL header.
    pub fn nal_header_length(self) -> (n: usize)
        ensures
            n == self.header_len(),
    {
        match self {
            CodecProfile::H264 => 1,
            CodecProfile::H265 => 2,
        }
    }

    /// Reads the raw type code from the first header byte.
    pub fn nal_type(self, first: u8) -> (t: u8)
        ensures
            t == self.type_of(first),
    {
        match self {
            CodecProfile::H264 => first & 0x1f,
            CodecProfile::H265 => (first & 0x7e) >> 1,
        }
    }

    /// Tells whether the first-slice bit of units of this type is read.
    pub fn probes_first_slice(self, nal_type: u8) -> (b: bool)
        ensures
            b == self.is_probed(nal_type),
    {
        match self {
            CodecProfile::H264 => nal_type == 1 || nal_type == 2 || nal_type == 5,
            CodecProfile::H265 => nal_type <= 23,
        }
    }

    /// Tells whether units of this type hold parameter sets.
    pub fn holds_parameter_set(self, nal_type: u8) -> (b: bool)
        ensures
            b == self.is_parameter_set(nal_type),
    {
        match self {
            CodecProfile::H264 => nal_type == 7 || nal_type == 8,
            CodecProfile::H265 => nal_type == 32 || nal_type == 33 || nal_type == 34,
        }
    }

    /// Classifies a unit from header bytes that were already read. Only the
    /// first byte matters; an empty header is classified as `NonVcl`.
    pub fn classify(self, header: &[u8]) -> (class: NalClass)
        ensures
            header@.len() > 0 ==> class == self.class_of(header@[0]),
            header@.len() == 0 ==> class == NalClass::NonVcl,
    {
        if header.len() == 0 {
            return NalClass::NonVcl;
        }
        self.classify_type(self.nal_type(header[0]))
    }

    /// Classifies the units with type code `t`.
    pub fn classify_type(self, t: u8) -> (class: NalClass)
        ensures
            class == self.class_of_type(t),
    {
        match self {
            CodecProfile::H264 => {
                if t <= 5 {
                    NalClass::Vcl { refresh: t == 5 }
                } else {
                    NalClass::NonVcl
                }
            },
            CodecProfile::H265 => {
                if t <= 23 {
                    NalClass::Vcl { refresh: t == 19 || t == 20 }
                } else if t == 40 {
                    NalClass::SuffixNonVcl
                } else {
                    NalClass::NonVcl
                }
            },
        }
    }
}

} // verus!
