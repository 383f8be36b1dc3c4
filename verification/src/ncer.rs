use vstd::prelude::*;

use crate::error::Error;

verus! {

/// NCER (Nintendo CEll Resource) cell data: only the in-memory model and
/// the attribute-word codec live here; file parsing of this format is a
/// stub in this family of tools.
#[derive(Debug, Clone)]
pub struct NCER {
    pub cells: Vec<NCERCell>,
    pub mapping_mode: u32,
    pub bounds: u32,
    pub labels: Vec<String>,
    pub uext: Vec<u8>,
}

/// One cell: its objects, an optional bounding box, and raw attributes.
#[derive(Debug, Clone)]
pub struct NCERCell {
    pub objects: Vec<OAMObject>,
    pub bounding_box: Option<CellBounds>,
    pub attrs: u16,
}

/// A cell's bounding box.
#[derive(Debug, Clone, Copy, PartialEq, Eq, Structural)]
pub struct CellBounds {
    pub min_x: u16,
    pub max_x: u16,
    pub min_y: u16,
    pub max_y: u16,
}

/// One hardware sprite object.
#[derive(Debug, Clone)]
pub enum OAMObject {
    RotScaleDisabled(ObjectInternals),
    RotScaleEnabled(RotScaleObject),
}

/// Placeholder for rotation/scaling objects, which this codec does not
/// support; no value of it can be made.
#[derive(Debug, Clone)]
pub struct RotScaleObject {
    _do_not_construct: bool,
}

/// The fields of a plain (non-rotation/scaling) object, unpacked from its
/// three 16-bit attribute words.
#[derive(Debug, Clone, Copy, PartialEq, Eq, Structural)]
pub struct ObjectInternals {
    /// 10-bit tile index.
    pub tile: u16,
    /// 4-bit palette slot, unused in 256-color mode.
    pub palette: u8,
    pub is_8_bit: bool,
    /// 9-bit horizontal position.
    pub pos_x: u16,
    pub pos_y: u8,
    /// The object's shape, from the 2-bit shape and 2-bit size fields.
    pub shape: ObjectShape,
    pub flip_x: bool,
    pub flip_y: bool,
    /// 2-bit priority.
    pub priority: u8,
    pub disable: bool,
    /// 2-bit mode.
    pub mode: u8,
    pub mosaic: bool,
    /// 3 unused bits of the second attribute, preserved verbatim.
    pub unused_attr1: u8,
}

/// The size in pixels an object can take, named width by height.
#[derive(Debug, Clone, Copy, PartialEq, Eq, Structural)]
pub enum ObjectShape {
    Object8x8,
    Object16x8,
    Object8x16,
    Object16x16,
    Object32x8,
    Object8x32,
    Object32x32,
    Object32x16,
    Object16x32,
    Object64x64,
    Object64x32,
    Object32x64,
}

/// The shape a 2-bit shape field and 2-bit size field denote, if any.
pub open spec fn spec_shape(shape: u8, size: u8) -> Option<ObjectShape> {
    match (shape, size) {
        (0u8, 0u8) => Some(ObjectShape::Object8x8),
        (1u8, 0u8) => Some(ObjectShape::Object16x8),
        (2u8, 0u8) => Some(ObjectShape::Object8x16),
        (0u8, 1u8) => Some(ObjectShape::Object16x16),
        (1u8, 1u8) => Some(ObjectShape::Object32x8),
        (2u8, 1u8) => Some(ObjectShape::Object8x32),
        (0u8, 2u8) => Some(ObjectShape::Object32x32),
        (1u8, 2u8) => Some(ObjectShape::Object32x16),
        (2u8, 2u8) => Some(ObjectShape::Object16x32),
        (0u8, 3u8) => Some(ObjectShape::Object32x32),
        (1u8, 3u8) => Some(ObjectShape::Object32x16),
        (2u8, 3u8) => Some(ObjectShape::Object16x32),
        _ => None,
    }
}

/// The canonical shape and size fields a shape packs back to.
pub open spec fn spec_shape_bits(s: ObjectShape) -> (u8, u8) {
    match s {
        ObjectShape::Object8x8 => (0u8, 0u8),
        ObjectShape::Object16x8 => (1u8, 0u8),
        ObjectShape::Object8x16 => (2u8, 0u8),
        ObjectShape::Object16x16 => (0u8, 1u8),
        ObjectShape::Object32x8 => (1u8, 1u8),
        ObjectShape::Object8x32 => (2u8, 1u8),
        ObjectShape::Object32x32 => (0u8, 2u8),
        ObjectShape::Object32x16 => (1u8, 2u8),
        ObjectShape::Object16x32 => (2u8, 2u8),
        ObjectShape::Object64x64 => (0u8, 3u8),
        ObjectShape::Object64x32 => (1u8, 3u8),
        ObjectShape::Object32x64 => (2u8, 3u8),
    }
}

impl ObjectShape {
    /// Decodes the 2-bit shape and size fields; a shape field of 3 is
    /// undefined.
    pub fn new(shape: u8, size: u8) -> (r: Result<ObjectShape, Error>)
        ensures
            match r {
                Ok(s) => spec_shape(shape, size) == Some(s),
                Err(e) => spec_shape(shape, size) is None && (e matches
                    Error::InvalidObjectShape { shape: es, size: ez } && es == shape && ez
                    == size),
            },
    {
        match (shape, size) {
            (0, 0) => Ok(ObjectShape::Object8x8),
            (1, 0) => Ok(ObjectShape::Object16x8),
            (2, 0) => Ok(ObjectShape::Object8x16),
            (0, 1) => Ok(ObjectShape::Object16x16),
            (1, 1) => Ok(ObjectShape::Object32x8),
            (2, 1) => Ok(ObjectShape::Object8x32),
            (0, 2) => Ok(ObjectShape::Object32x32),
            (1, 2) => Ok(ObjectShape::Object32x16),
            (2, 2) => Ok(ObjectShape::Object16x32),
            (0, 3) => Ok(ObjectShape::Object32x32),
            (1, 3) => Ok(ObjectShape::Object32x16),
            (2, 3) => Ok(ObjectShape::Object16x32),
            _ => Err(Error::InvalidObjectShape { shape, size }),
        }
    }
}

/// The object the three attribute words denote: rotation/scaling objects
/// and undefined shape fields are refused.
pub open spec fn spec_parse_attrs(a0: u16, a1: u16, a2: u16) -> Option<ObjectInternals> {
    if (a0 / 256) % 2 != 0 {
        None
    } else {
        match spec_shape((a0 / 16384) as u8, (a1 / 16384) as u8) {
            None => None,
            Some(shape) => Some(
                ObjectInternals {
                    tile: (a2 % 1024) as u16,
                    palette: (a2 / 4096) as u8,
                    is_8_bit: (a0 / 8192) % 2 != 0,
                    pos_x: (a1 % 512) as u16,
                    pos_y: (a0 % 256) as u8,
                    shape,
                    flip_x: (a1 / 4096) % 2 != 0,
                    flip_y: (a1 / 8192) % 2 != 0,
                    priority: ((a2 / 1024) % 4) as u8,
                    disable: (a0 / 512) % 2 != 0,
                    mode: ((a0 / 1024) % 4) as u8,
                    mosaic: (a0 / 4096) % 2 != 0,
                    unused_attr1: ((a1 / 512) % 8) as u8,
                },
            ),
        }
    }
}

impl ObjectInternals {
    /// All fields fit their bit ranges, and the shape is one the decoder
    /// can produce (the three 64-pixel shapes have no attribute encoding
    /// of their own here).
    pub open spec fn wf(self) -> bool {
        &&& self.tile < 1024
        &&& self.palette < 16
        &&& self.pos_x < 512
        &&& self.priority < 4
        &&& self.mode < 4
        &&& self.unused_attr1 < 8
        &&& self.shape != ObjectShape::Object64x64
        &&& self.shape != ObjectShape::Object64x32
        &&& self.shape != ObjectShape::Object32x64
    }

    /// Unpacks the three attribute words of a plain object.
    pub fn from_attributes(attr: &[u16; 3]) -> (r: Result<ObjectInternals, Error>)
        ensures
            match r {
                Ok(o) => spec_parse_attrs(attr@[0], attr@[1], attr@[2]) == Some(o),
                Err(e) => spec_parse_attrs(attr@[0], attr@[1], attr@[2]) is None && (
                e is UnimplementedFeature || e is InvalidObjectShape),
            },
    {
        let a0 = attr[0];
        let a1 = attr[1];
        let a2 = attr[2];
        if (a0 / 256) % 2 != 0 {
            return Err(Error::UnimplementedFeature);
        }
        let shape_bits = (a0 / 16384) as u8;
        let size_bits = (a1 / 16384) as u8;
        let shape = match ObjectShape::new(shape_bits, size_bits) {
            Ok(s) => s,
            Err(e) => {
                return Err(e);
            },
        };
        Ok(ObjectInternals {
            tile: a2 % 1024,
            palette: (a2 / 4096) as u8,
            is_8_bit: (a0 / 8192) % 2 != 0,
            pos_x: a1 % 512,
            pos_y: (a0 % 256) as u8,
            shape,
            flip_x: (a1 / 4096) % 2 != 0,
            flip_y: (a1 / 8192) % 2 != 0,
            priority: ((a2 / 1024) % 4) as u8,
            disable: (a0 / 512) % 2 != 0,
            mode: ((a0 / 1024) % 4) as u8,
            mosaic: (a0 / 4096) % 2 != 0,
            unused_attr1: ((a1 / 512) % 8) as u8,
        })
    }

    /// The first attribute word of the object.
    pub open spec fn spec_attr0(self) -> u16 {
        (self.pos_y + (if self.disable {
            512int
        } else {
            0int
        }) + self.mode * 1024 + (if self.mosaic {
            4096int
        } else {
            0int
        }) + (if self.is_8_bit {
            8192int
        } else {
            0int
        }) + spec_shape_bits(self.shape).0 * 16384) as u16
    }

    /// The second attribute word of the object.
    pub open spec fn spec_attr1(self) -> u16 {
        (self.pos_x + self.unused_attr1 * 512 + (if self.flip_x {
            4096int
        } else {
            0int
        }) + (if self.flip_y {
            8192int
        } else {
            0int
        }) + spec_shape_bits(self.shape).1 * 16384) as u16
    }

    /// The third attribute word of the object.
    pub open spec fn spec_attr2(self) -> u16 {
        (self.tile + self.priority * 1024 + self.palette * 4096) as u16
    }

    /// Packs the object back into its three attribute words, the inverse
    /// of the unpacking.
    pub fn to_attributes(&self) -> (r: [u16; 3])
        requires
            self.wf(),
        ensures
            r@ == seq![self.spec_attr0(), self.spec_attr1(), self.spec_attr2()],
    {
        let (sb, zb) = match self.shape {
            ObjectShape::Object8x8 => (0u16, 0u16),
            ObjectShape::Object16x8 => (1u16, 0u16),
            ObjectShape::Object8x16 => (2u16, 0u16),
            ObjectShape::Object16x16 => (0u16, 1u16),
            ObjectShape::Object32x8 => (1u16, 1u16),
            ObjectShape::Object8x32 => (2u16, 1u16),
            ObjectShape::Object32x32 => (0u16, 2u16),
            ObjectShape::Object32x16 => (1u16, 2u16),
            ObjectShape::Object16x32 => (2u16, 2u16),
            ObjectShape::Object64x64 => (0u16, 3u16),
            ObjectShape::Object64x32 => (1u16, 3u16),
            ObjectShape::Object32x64 => (2u16, 3u16),
        };
        let a0 = self.pos_y as u16 + (if self.disable {
            512
        } else {
            0
        }) + self.mode as u16 * 1024 + (if self.mosaic {
            4096
        } else {
            0
        }) + (if self.is_8_bit {
            8192
        } else {
            0
        }) + sb * 16384;
        let a1 = self.pos_x + self.unused_attr1 as u16 * 512 + (if self.flip_x {
            4096
        } else {
            0
        }) + (if self.flip_y {
            8192
        } else {
            0
        }) + zb * 16384;
        let a2 = self.tile + self.priority as u16 * 1024 + self.palette as u16 * 4096;
        let r = [a0, a1, a2];
        proof {
            assert(r@ =~= seq![self.spec_attr0(), self.spec_attr1(), self.spec_attr2()]);
        }
        r
    }
}

/// A well-formed plain object survives the trip through its attribute
/// words unchanged.
pub proof fn lemma_attrs_round_trip(o: ObjectInternals)
    requires
        o.wf(),
    ensures
        spec_parse_attrs(o.spec_attr0(), o.spec_attr1(), o.spec_attr2()) == Some(o),
{
    let sb = spec_shape_bits(o.shape).0 as int;
    let zb = spec_shape_bits(o.shape).1 as int;
    let dis: int = if o.disable {
        1
    } else {
        0
    };
    let mos: int = if o.mosaic {
        1
    } else {
        0
    };
    let i8b: int = if o.is_8_bit {
        1
    } else {
        0
    };
    let fx: int = if o.flip_x {
        1
    } else {
        0
    };
    let fy: int = if o.flip_y {
        1
    } else {
        0
    };
    let a0 = o.pos_y + dis * 512 + o.mode * 1024 + mos * 4096 + i8b * 8192 + sb * 16384;
    let a1 = o.pos_x + o.unused_attr1 * 512 + fx * 4096 + fy * 8192 + zb * 16384;
    let a2 = o.tile + o.priority * 1024 + o.palette * 4096;
    assert(a0 % 256 == o.pos_y && (a0 / 256) % 2 == 0 && (a0 / 512) % 2 == dis && (a0 / 1024) % 4
        == o.mode && (a0 / 4096) % 2 == mos && (a0 / 8192) % 2 == i8b && a0 / 16384 == sb)
        by (nonlinear_arith)
        requires
            o.pos_y < 256 && o.mode < 4 && 0 <= dis <= 1 && 0 <= mos <= 1 && 0 <= i8b <= 1 && 0
                <= sb <= 2 && a0 == o.pos_y + dis * 512 + o.mode * 1024 + mos * 4096 + i8b * 8192
                + sb * 16384,
    ;
    assert(a1 % 512 == o.pos_x && (a1 / 512) % 8 == o.unused_attr1 && (a1 / 4096) % 2 == fx && (a1
        / 8192) % 2 == fy && a1 / 16384 == zb) by (nonlinear_arith)
        requires
            o.pos_x < 512 && o.unused_attr1 < 8 && 0 <= fx <= 1 && 0 <= fy <= 1 && 0 <= zb <= 3
                && a1 == o.pos_x + o.unused_attr1 * 512 + fx * 4096 + fy * 8192 + zb * 16384,
    ;
    assert(a2 % 1024 == o.tile && (a2 / 1024) % 4 == o.priority && a2 / 4096 == o.palette)
        by (nonlinear_arith)
        requires
            o.tile < 1024 && o.priority < 4 && o.palette < 16 && a2 == o.tile + o.priority * 1024
                + o.palette * 4096,
    ;
    assert(spec_shape(sb as u8, zb as u8) == Some(o.shape));
}

} // verus!
