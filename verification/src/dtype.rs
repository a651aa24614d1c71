//! Element-type tags for a future tensor layer.
//!
//! This enumeration is not consumed by the graph engine; it stands on its own
//! with parse and format helpers.

use vstd::prelude::*;
use vstd::string::StrSliceExecFns;

verus! {

#[derive(Clone, Copy, Debug, PartialEq, Eq, Structural, Hash)]
pub enum DType {
    U8,
    U16,
    U32,
    U64,
    I8,
    I16,
    I32,
    I64,
    F16,
    F32,
    F64,
}

/// The textual tag of each element type.
pub open spec fn dtype_str(d: DType) -> Seq<char> {
    match d {
        DType::U8 => "u8"@,
        DType::U16 => "u16"@,
        DType::U32 => "u32"@,
        DType::U64 => "u64"@,
        DType::I8 => "i8"@,
        DType::I16 => "i16"@,
        DType::I32 => "i32"@,
        DType::I64 => "i64"@,
        DType::F16 => "f16"@,
        DType::F32 => "f32"@,
        DType::F64 => "f64"@,
    }
}

/// Which element type, if any, a textual tag denotes.
pub open spec fn dtype_of_str(s: Seq<char>) -> Option<DType> {
    if s == "u8"@ {
        Some(DType::U8)
    } else if s == "u16"@ {
        Some(DType::U16)
    } else if s == "u32"@ {
        Some(DType::U32)
    } else if s == "u64"@ {
        Some(DType::U64)
    } else if s == "i8"@ {
        Some(DType::I8)
    } else if s == "i16"@ {
        Some(DType::I16)
    } else if s == "i32"@ {
        Some(DType::I32)
    } else if s == "i64"@ {
        Some(DType::I64)
    } else if s == "f16"@ {
        Some(DType::F16)
    } else if s == "f32"@ {
        Some(DType::F32)
    } else if s == "f64"@ {
        Some(DType::F64)
    } else {
        None
    }
}

/// Error for a tag string that names no element type; holds the rejected text.
#[derive(Debug)]
pub struct DTypeParseError(String);

impl View for DTypeParseError {
    type V = Seq<char>;

    closed spec fn view(&self) -> Seq<char> {
        self.0@
    }
}

impl DTypeParseError {
    /// The text that could not be parsed.
    pub fn text(&self) -> (r: &str)
        ensures
            r@ == self@,
    {
        self.0.as_str()
    }
}

impl DType {
    pub fn as_str(&self) -> (r: &'static str)
        ensures
            r@ == dtype_str(*self),
    {
        match self {
            DType::U8 => "u8",
            DType::U16 => "u16",
            DType::U32 => "u32",
            DType::U64 => "u64",
            DType::I8 => "i8",
            DType::I16 => "i16",
            DType::I32 => "i32",
            DType::I64 => "i64",
            DType::F16 => "f16",
            DType::F32 => "f32",
            DType::F64 => "f64",
        }
    }

    pub fn is_int(&self) -> (r: bool)
        ensures
            r == (*self is U8 || *self is U32 || *self is I32 || *self is I64),
    {
        matches!(self, DType::U8 | DType::U32 | DType::I32 | DType::I64)
    }

    pub fn is_float(&self) -> (r: bool)
        ensures
            r == (*self is F32 || *self is F64),
    {
        matches!(self, DType::F32 | DType::F64)
    }

    pub fn is_unsigned(&self) -> (r: bool)
        ensures
            r == (*self is U8 || *self is U16 || *self is U32 || *self is U64),
    {
        matches!(self, DType::U8 | DType::U16 | DType::U32 | DType::U64)
    }

    pub fn is_signed(&self) -> (r: bool)
        ensures
            r == (*self is I8 || *self is I16 || *self is I32 || *self is I64),
    {
        matches!(self, DType::I8 | DType::I16 | DType::I32 | DType::I64)
    }

    /// Parses a textual tag; returns the element type it denotes, or an error
    /// holding the rejected text when it denotes none.
    pub fn from_str(s: &str) -> (r: Result<DType, DTypeParseError>)
        ensures
            match r {
                Ok(d) => dtype_of_str(s@) == Some(d),
                Err(e) => dtype_of_str(s@) is None && e@ == s@,
            },
    {
        proof {
            reveal_strlit("u8");
            reveal_strlit("u16");
            reveal_strlit("u32");
            reveal_strlit("u64");
            reveal_strlit("i8");
            reveal_strlit("i16");
            reveal_strlit("i32");
            reveal_strlit("i64");
            reveal_strlit("f16");
            reveal_strlit("f32");
            reveal_strlit("f64");
        }
        let n: usize = s.unicode_len();
        if n == 2 {
            let c0 = s.get_char(0);
            let c1 = s.get_char(1);
            if c0 == 'u' && c1 == '8' {
                proof {
                    assert(s@ =~= "u8"@);
                }
                return Ok(DType::U8);
            }
            if c0 == 'i' && c1 == '8' {
                proof {
                    assert(s@ =~= "i8"@);
                }
                return Ok(DType::I8);
            }
        } else if n == 3 {
            let c0 = s.get_char(0);
            let c1 = s.get_char(1);
            let c2 = s.get_char(2);
            if c1 == '1' && c2 == '6' {
                if c0 == 'u' {
                    proof {
                        assert(s@ =~= "u16"@);
                    }
                    return Ok(DType::U16);
                }
                if c0 == 'i' {
                    proof {
                        assert(s@ =~= "i16"@);
                    }
                    return Ok(DType::I16);
                }
                if c0 == 'f' {
                    proof {
                        assert(s@ =~= "f16"@);
                    }
                    return Ok(DType::F16);
                }
            }
            if c1 == '3' && c2 == '2' {
                if c0 == 'u' {
                    proof {
                        assert(s@ =~= "u32"@);
                    }
                    return Ok(DType::U32);
                }
                if c0 == 'i' {
                    proof {
                        assert(s@ =~= "i32"@);
                    }
                    return Ok(DType::I32);
                }
                if c0 == 'f' {
                    proof {
                        assert(s@ =~= "f32"@);
                    }
                    return Ok(DType::F32);
                }
            }
            if c1 == '6' && c2 == '4' {
                if c0 == 'u' {
                    proof {
                        assert(s@ =~= "u64"@);
                    }
                    return Ok(DType::U64);
                }
                if c0 == 'i' {
                    proof {
                        assert(s@ =~= "i64"@);
                    }
                    return Ok(DType::I64);
                }
                if c0 == 'f' {
                    proof {
                        assert(s@ =~= "f64"@);
                    }
                    return Ok(DType::F64);
                }
            }
        }
        Err(DTypeParseError(s.to_owned()))
    }
}

} // verus!
