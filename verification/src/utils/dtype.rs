//! How types of numbers and layouts of tensors are told to other libraries.
use crate::utils::text;
use vstd::prelude::*;

verus! {

/// A type of number that a tensor can hold.
#[derive(Debug, Clone, Copy, PartialEq, Eq, Structural)]
pub enum ElementType {
    U8,
    U32,
    I64,
    BF16,
    F16,
    F32,
    F64,
}

/// A type of number as DLPack describes it: the kind, the bits of one number, and how many
/// numbers stand together.
#[derive(Debug, Clone, Copy, PartialEq, Eq, Structural)]
pub struct DLDataType {
    pub code: u8,
    pub bits: u8,
    pub lanes: u16,
}

/// Signed integers.
pub const K_DL_INT: u8 = 0;

/// Unsigned integers.
pub const K_DL_UINT: u8 = 1;

/// IEEE 754 floats.
pub const K_DL_FLOAT: u8 = 2;

/// Floats with the exponent of a 32-bit float and half its bits.
pub const K_DL_BFLOAT: u8 = 4;

impl ElementType {
    /// The bits of one number.
    pub open spec fn width(self) -> int {
        match self {
            ElementType::U8 => 8,
            ElementType::BF16 => 16,
            ElementType::F16 => 16,
            ElementType::U32 => 32,
            ElementType::F32 => 32,
            ElementType::I64 => 64,
            ElementType::F64 => 64,
        }
    }

    /// The kind of number.
    pub open spec fn code(self) -> u8 {
        match self {
            ElementType::U8 => K_DL_UINT,
            ElementType::U32 => K_DL_UINT,
            ElementType::I64 => K_DL_INT,
            ElementType::BF16 => K_DL_BFLOAT,
            ElementType::F16 => K_DL_FLOAT,
            ElementType::F32 => K_DL_FLOAT,
            ElementType::F64 => K_DL_FLOAT,
        }
    }

    /// What torch calls the type. It has no unsigned 32-bit integers, which become signed
    /// ones.
    pub open spec fn torch_name(self) -> Seq<char> {
        match self {
            ElementType::U8 => "uint8"@,
            ElementType::U32 => "int32"@,
            ElementType::I64 => "int64"@,
            ElementType::BF16 => "bfloat16"@,
            ElementType::F16 => "float16"@,
            ElementType::F32 => "float32"@,
            ElementType::F64 => "float64"@,
        }
    }
}

/// The type as DLPack describes it.
pub fn dl_dtype(dtype: ElementType) -> (described: DLDataType)
    ensures
        described.code == dtype.code(),
        described.bits == dtype.width(),
        described.lanes == 1,
{
    match dtype {
        ElementType::BF16 => DLDataType { code: K_DL_BFLOAT, bits: 16, lanes: 1 },
        ElementType::F16 => DLDataType { code: K_DL_FLOAT, bits: 16, lanes: 1 },
        ElementType::F32 => DLDataType { code: K_DL_FLOAT, bits: 32, lanes: 1 },
        ElementType::F64 => DLDataType { code: K_DL_FLOAT, bits: 64, lanes: 1 },
        ElementType::U8 => DLDataType { code: K_DL_UINT, bits: 8, lanes: 1 },
        ElementType::U32 => DLDataType { code: K_DL_UINT, bits: 32, lanes: 1 },
        ElementType::I64 => DLDataType { code: K_DL_INT, bits: 64, lanes: 1 },
    }
}

/// What torch calls the type.
pub fn torch_dtype_str(dtype: ElementType) -> (name: &'static str)
    ensures
        name@ == dtype.torch_name(),
{
    match dtype {
        ElementType::U8 => "uint8",
        ElementType::U32 => "int32",
        ElementType::I64 => "int64",
        ElementType::BF16 => "bfloat16",
        ElementType::F16 => "float16",
        ElementType::F32 => "float32",
        ElementType::F64 => "float64",
    }
}

/// The type of float that keys and values are cached in, by its name in torch. Where the name
/// is no other's, it is half a 32-bit float.
pub fn cache_type(torch_dtype: &str) -> (dtype: ElementType)
    ensures
        dtype == (if torch_dtype@ == "float16"@ {
            ElementType::F16
        } else if torch_dtype@ == "float32"@ {
            ElementType::F32
        } else if torch_dtype@ == "float64"@ {
            ElementType::F64
        } else {
            ElementType::BF16
        }),
        torch_dtype@ == "float16"@ || torch_dtype@ == "float32"@ || torch_dtype@ == "float64"@
            || torch_dtype@ == "bfloat16"@ ==> dtype.torch_name() == torch_dtype@,
{
    proof {
        reveal_strlit("float16");
        reveal_strlit("float32");
        reveal_strlit("float64");
        reveal_strlit("bfloat16");
        assert("bfloat16"@.len() == 8 && "float16"@.len() == 7);
    }
    if text::same_text(torch_dtype, "float16") {
        ElementType::F16
    } else if text::same_text(torch_dtype, "float32") {
        ElementType::F32
    } else if text::same_text(torch_dtype, "float64") {
        ElementType::F64
    } else {
        ElementType::BF16
    }
}

/// The elements of a tensor of shape `shape` that stand behind one step along dimension `i`.
pub open spec fn stride(shape: Seq<i64>, i: int) -> int
    decreases shape.len() - i,
{
    if i < 0 || i + 1 >= shape.len() {
        1
    } else {
        stride(shape, i + 1) * shape[i + 1]
    }
}

/// The strides of a tensor of shape `shape` whose elements stand row by row without gaps, in
/// elements.
pub fn row_major_strides(shape: &[i64]) -> (strides: Vec<i64>)
    requires
        forall|i: int|
            0 <= i < shape@.len() ==> i64::MIN <= #[trigger] stride(shape@, i) && stride(
                shape@,
                i,
            ) <= i64::MAX,
    ensures
        strides@ == Seq::new(shape@.len(), |i: int| stride(shape@, i) as i64),
{
    let n = shape.len();
    let mut strides: Vec<i64> = Vec::new();
    let mut i: usize = 0;
    while i < n
        invariant
            i <= n,
            n == shape@.len(),
            strides@.len() == i,
        decreases n - i,
    {
        strides.push(1);
        i = i + 1;
    }
    let mut i: usize = n;
    while i > 0
        invariant
            i <= n,
            n == shape@.len(),
            strides@.len() == n,
            forall|i: int|
                0 <= i < shape@.len() ==> i64::MIN <= #[trigger] stride(shape@, i) && stride(
                    shape@,
                    i,
                ) <= i64::MAX,
            forall|j: int| i <= j < n ==> (#[trigger] strides@[j]) == stride(shape@, j),
        decreases i,
    {
        i = i - 1;
        if i + 1 < n {
            assert(strides@[i + 1] == stride(shape@, i + 1));
            assert(stride(shape@, i as int) == stride(shape@, i + 1) * shape@[i + 1]);
            let step = strides[i + 1] * shape[i + 1];
            strides[i] = step;
        } else {
            strides[i] = 1;
        }
    }
    assert(strides@ =~= Seq::new(shape@.len(), |i: int| stride(shape@, i) as i64));
    strides
}

/// The strides reach every element: the elements along dimension `i`, all together, are as
/// many as one step along the dimension before it.
pub proof fn strides_leave_no_gap(shape: Seq<i64>, i: int)
    requires
        1 <= i < shape.len(),
    ensures
        stride(shape, i - 1) == stride(shape, i) * shape[i],
        stride(shape, shape.len() - 1) == 1,
{
}

} // verus!
