//! On-demand sampling of tensor data: which elements are shown, where their bytes are,
//! and what the bytes stand for.
use vstd::prelude::*;

use crate::header::little_endian;
use crate::inputs::product;
use crate::paths::{extension, path_extension};
use crate::schema::{signed, signed_string};
use crate::text::{decimal, decimal_string, same};
use crate::tree::{dup_numbers, Layout, TensorInfo};

verus! {

// ---------------------------------------------------------------------------
// Views of the stored bytes

/// How a tensor's bytes are decoded for display.
#[derive(Clone, Copy, Debug, PartialEq, Eq, Hash)]
pub enum ViewDtype {
    /// By the tensor's own dtype.
    Stored,
    /// Each container as another dtype of the same width.
    As(&'static str),
    /// Unsigned 4-bit, the low nibble of each container.
    U4Lo,
    /// Unsigned 4-bit, the high nibble of each container.
    U4Hi,
    /// Unsigned 4-bit, every nibble of each container.
    U4Packed,
    /// Signed 4-bit (two's complement), the low nibble of each container.
    I4Lo,
    /// Signed 4-bit, the high nibble of each container.
    I4Hi,
    /// Signed 4-bit, every nibble of each container.
    I4Packed,
    /// The indices of a fused codebook, unmerged.
    Unpacked,
}

impl Default for ViewDtype {
    fn default() -> (r: ViewDtype)
        ensures
            r == ViewDtype::Stored,
    {
        ViewDtype::Stored
    }
}

/// What a label is in the end.
pub open spec fn opt_text(s: Option<&'static str>) -> Option<Seq<char>> {
    match s {
        Some(t) => Some(t@),
        None => None,
    }
}

impl ViewDtype {
    /// Two views decode alike.
    pub open spec fn same_view(self, other: ViewDtype) -> bool {
        match (self, other) {
            (ViewDtype::Stored, ViewDtype::Stored) => true,
            (ViewDtype::As(a), ViewDtype::As(b)) => a@ == b@,
            (ViewDtype::U4Lo, ViewDtype::U4Lo) => true,
            (ViewDtype::U4Hi, ViewDtype::U4Hi) => true,
            (ViewDtype::U4Packed, ViewDtype::U4Packed) => true,
            (ViewDtype::I4Lo, ViewDtype::I4Lo) => true,
            (ViewDtype::I4Hi, ViewDtype::I4Hi) => true,
            (ViewDtype::I4Packed, ViewDtype::I4Packed) => true,
            (ViewDtype::Unpacked, ViewDtype::Unpacked) => true,
            _ => false,
        }
    }

    /// Whether two views decode alike.
    pub fn is_same(self, other: ViewDtype) -> (b: bool)
        ensures
            b == self.same_view(other),
    {
        match (self, other) {
            (ViewDtype::Stored, ViewDtype::Stored) => true,
            (ViewDtype::As(a), ViewDtype::As(b)) => same(a, b),
            (ViewDtype::U4Lo, ViewDtype::U4Lo) => true,
            (ViewDtype::U4Hi, ViewDtype::U4Hi) => true,
            (ViewDtype::U4Packed, ViewDtype::U4Packed) => true,
            (ViewDtype::I4Lo, ViewDtype::I4Lo) => true,
            (ViewDtype::I4Hi, ViewDtype::I4Hi) => true,
            (ViewDtype::I4Packed, ViewDtype::I4Packed) => true,
            (ViewDtype::Unpacked, ViewDtype::Unpacked) => true,
            _ => false,
        }
    }

    pub open spec fn label_text(self) -> Option<Seq<char>> {
        match self {
            ViewDtype::Stored => None,
            ViewDtype::As(dt) => Some(dt@),
            ViewDtype::U4Lo => Some("u4 (low nibble)"@),
            ViewDtype::U4Hi => Some("u4 (high nibble)"@),
            ViewDtype::U4Packed => Some("u4 (packed)"@),
            ViewDtype::I4Lo => Some("i4 (low nibble)"@),
            ViewDtype::I4Hi => Some("i4 (high nibble)"@),
            ViewDtype::I4Packed => Some("i4 (packed)"@),
            ViewDtype::Unpacked => Some("unpacked"@),
        }
    }

    /// Short label for the active override, or `None` for the stored dtype.
    pub fn label(self) -> (r: Option<&'static str>)
        ensures
            opt_text(r) == self.label_text(),
    {
        match self {
            ViewDtype::Stored => None,
            ViewDtype::As(dt) => Some(dt),
            ViewDtype::U4Lo => Some("u4 (low nibble)"),
            ViewDtype::U4Hi => Some("u4 (high nibble)"),
            ViewDtype::U4Packed => Some("u4 (packed)"),
            ViewDtype::I4Lo => Some("i4 (low nibble)"),
            ViewDtype::I4Hi => Some("i4 (high nibble)"),
            ViewDtype::I4Packed => Some("i4 (packed)"),
            ViewDtype::Unpacked => Some("unpacked"),
        }
    }

    pub open spec fn menu_text(self) -> Seq<char> {
        match self {
            ViewDtype::Stored => "stored"@,
            ViewDtype::As(dt) => dt@,
            ViewDtype::U4Lo => "u4·lo"@,
            ViewDtype::U4Hi => "u4·hi"@,
            ViewDtype::U4Packed => "u4·packed"@,
            ViewDtype::I4Lo => "i4·lo"@,
            ViewDtype::I4Hi => "i4·hi"@,
            ViewDtype::I4Packed => "i4·packed"@,
            ViewDtype::Unpacked => "unpacked"@,
        }
    }

    /// A compact label for the selection menu.
    pub fn menu_label(self) -> (r: &'static str)
        ensures
            r@ == self.menu_text(),
    {
        match self {
            ViewDtype::Stored => "stored",
            ViewDtype::As(dt) => dt,
            ViewDtype::U4Lo => "u4·lo",
            ViewDtype::U4Hi => "u4·hi",
            ViewDtype::U4Packed => "u4·packed",
            ViewDtype::I4Lo => "i4·lo",
            ViewDtype::I4Hi => "i4·hi",
            ViewDtype::I4Packed => "i4·packed",
            ViewDtype::Unpacked => "unpacked",
        }
    }

    /// A view of every nibble.
    pub open spec fn is_packed(self) -> bool {
        self is U4Packed || self is I4Packed
    }

    /// How many values are unpacked from a container of `item_bytes` bytes.
    pub open spec fn values_per(self, item_bytes: nat) -> nat {
        if self.is_packed() {
            item_bytes * 2
        } else {
            1
        }
    }

    /// How many values are unpacked from each container of `item_bytes` bytes: two per
    /// byte for the packed views, else one.
    pub fn packing(self, item_bytes: usize) -> (r: usize)
        requires
            item_bytes <= 8,
        ensures
            r == self.values_per(item_bytes as nat),
    {
        match self {
            ViewDtype::U4Packed => item_bytes * 2,
            ViewDtype::I4Packed => item_bytes * 2,
            _ => 1,
        }
    }

    pub open spec fn signed_view(self) -> bool {
        self is I4Lo || self is I4Hi || self is I4Packed
    }

    pub fn is_signed(self) -> (b: bool)
        ensures
            b == self.signed_view(),
    {
        match self {
            ViewDtype::I4Lo => true,
            ViewDtype::I4Hi => true,
            ViewDtype::I4Packed => true,
            _ => false,
        }
    }

    /// The dtype by which a container is decoded, where it is decoded whole.
    pub open spec fn whole_dtype(self, stored: Seq<char>) -> Option<Seq<char>> {
        match self {
            ViewDtype::Stored => Some(stored),
            ViewDtype::As(dt) => Some(dt@),
            _ => None,
        }
    }

    /// Whether the decoded values are integers.
    pub open spec fn integral(self, stored: Seq<char>) -> bool {
        match self.whole_dtype(stored) {
            Some(dt) => integer_dtype(dt),
            None => true,
        }
    }

    /// Whether the decoded values are integers: always for the 4-bit views, else by the
    /// dtype.
    pub fn is_integer(self, stored: &str) -> (b: bool)
        ensures
            b == self.integral(stored@),
    {
        match self {
            ViewDtype::Stored => dtype_is_integer(stored),
            ViewDtype::As(dt) => dtype_is_integer(dt),
            _ => true,
        }
    }

    /// The widest number that an integer view can show, in characters.
    pub open spec fn widest(self, stored: Seq<char>) -> nat {
        match self.whole_dtype(stored) {
            None => 2,
            Some(dt) => if dt == "I8"@ || dt == "U8"@ || dt == "BOOL"@ {
                4
            } else if dt == "I16"@ || dt == "U16"@ {
                6
            } else if dt == "I32"@ || dt == "U32"@ {
                11
            } else if dt == "I64"@ || dt == "U64"@ {
                20
            } else {
                10
            },
        }
    }

    fn int_max_digits(self, stored: &str) -> (r: usize)
        ensures
            r == self.widest(stored@),
    {
        let dt = match self {
            ViewDtype::As(dt) => dt,
            ViewDtype::Stored => stored,
            _ => {
                return 2;
            },
        };
        if same(dt, "I8") || same(dt, "U8") || same(dt, "BOOL") {
            4
        } else if same(dt, "I16") || same(dt, "U16") {
            6
        } else if same(dt, "I32") || same(dt, "U32") {
            11
        } else if same(dt, "I64") || same(dt, "U64") {
            20
        } else {
            10
        }
    }

    /// The width of a value's cell, with the gap behind it.
    pub open spec fn cell(self, stored: Seq<char>, range: Option<(i64, i64)>) -> nat {
        if !self.integral(stored) {
            11
        } else {
            let digits = match range {
                Some((lo, hi)) => if signed(lo as int).len() >= signed(hi as int).len() {
                    signed(lo as int).len()
                } else {
                    signed(hi as int).len()
                },
                None => self.widest(stored),
            };
            if digits + 1 > 3 {
                digits + 1
            } else {
                3
            }
        }
    }

    /// The width of one value's cell in the numeric grid, with the gap behind it. Floats
    /// have a fixed width. Integers take what the tensor's smallest and largest value
    /// need, or, while those are not known, what the dtype's widest value needs.
    pub fn cell_width(self, stored: &str, range: Option<(i64, i64)>) -> (r: usize)
        ensures
            r == self.cell(stored@, range),
    {
        if !self.is_integer(stored) {
            return 11;
        }
        let digits: usize = match range {
            Some((lo, hi)) => {
                let a = int_digits(lo);
                let b = int_digits(hi);
                if a >= b {
                    a
                } else {
                    b
                }
            },
            None => self.int_max_digits(stored),
        };
        if digits < 2 {
            3
        } else {
            digits + 1
        }
    }

    /// The shape under the view.
    pub open spec fn shape_under(self, shape: Seq<usize>, stored: Seq<char>) -> Seq<usize> {
        match size_of_item(stored) {
            Some(b) => if self.values_per(b as nat) > 1 && shape.len() > 0 {
                shape.update(shape.len() - 1, (shape.last() * self.values_per(b as nat)) as usize)
            } else {
                shape
            },
            None => shape,
        }
    }

    /// The shape under this view: the last dimension scaled by the number of values in
    /// each container.
    pub fn logical_shape(self, shape: &Vec<usize>, stored_dtype: &str) -> (r: Vec<usize>)
        requires
            shape.len() > 0 ==> shape@.last() * 16 <= usize::MAX,
        ensures
            r@ == self.shape_under(shape@, stored_dtype@),
    {
        let mut r = dup_numbers(shape);
        if let Some(b) = item_size(stored_dtype) {
            let packing = self.packing(b);
            let n = r.len();
            if packing > 1 && n > 0 {
                let last = r[n - 1];
                proof {
                    assert(last * packing <= last * 16) by (nonlinear_arith)
                        requires
                            0 <= packing <= 16,
                            last >= 0,
                    ;
                }
                r.set(n - 1, last * packing);
            }
        }
        r
    }
}

/// A power of ten.
spec fn ten_to(k: nat) -> nat
    decreases k,
{
    if k == 0 {
        1
    } else {
        10 * ten_to((k - 1) as nat)
    }
}

proof fn lemma_decimal_len(n: nat, k: nat)
    requires
        n < ten_to(k),
        k >= 1,
    ensures
        decimal(n).len() <= k,
    decreases k,
{
    if n >= 10 {
        if k == 1 {
            assert(ten_to(0) == 1);
        } else {
            lemma_decimal_len(n / 10, (k - 1) as nat);
        }
    }
}

/// The number of characters of a whole number.
fn int_digits(v: i64) -> (r: usize)
    ensures
        r == signed(v as int).len(),
        1 <= r <= 21,
{
    let s = signed_string(v as i128);
    proof {
        let n = if v < 0 {
            (-v) as nat
        } else {
            v as nat
        };
        crate::text::lemma_decimal_value(n);
        reveal_with_fuel(ten_to, 21);
        reveal_strlit("-");
        lemma_decimal_len(n, 20);
    }
    s.as_str().unicode_len()
}

/// A dtype of integers or booleans.
pub open spec fn integer_dtype(dt: Seq<char>) -> bool {
    dt == "I8"@ || dt == "U8"@ || dt == "I16"@ || dt == "U16"@ || dt == "I32"@ || dt == "U32"@ || dt
        == "I64"@ || dt == "U64"@ || dt == "BOOL"@
}

/// Whether a dtype label denotes an integer or boolean type.
pub fn dtype_is_integer(dtype: &str) -> (b: bool)
    ensures
        b == integer_dtype(dtype@),
{
    same(dtype, "I8") || same(dtype, "U8") || same(dtype, "I16") || same(dtype, "U16") || same(
        dtype,
        "I32",
    ) || same(dtype, "U32") || same(dtype, "I64") || same(dtype, "U64") || same(dtype, "BOOL")
}

/// A primitive numeric dtype.
#[derive(Clone, Copy, Debug, PartialEq, Eq, Structural)]
pub enum Prim {
    F64,
    F32,
    F16,
    BF16,
    I64,
    I32,
    I16,
    I8,
    U64,
    U32,
    U16,
    U8,
}

/// The dtype that a label names.
pub open spec fn prim_of(dt: Seq<char>) -> Option<Prim> {
    if dt == "F64"@ {
        Some(Prim::F64)
    } else if dt == "F32"@ {
        Some(Prim::F32)
    } else if dt == "F16"@ {
        Some(Prim::F16)
    } else if dt == "BF16"@ {
        Some(Prim::BF16)
    } else if dt == "I64"@ {
        Some(Prim::I64)
    } else if dt == "I32"@ {
        Some(Prim::I32)
    } else if dt == "I16"@ {
        Some(Prim::I16)
    } else if dt == "I8"@ {
        Some(Prim::I8)
    } else if dt == "U64"@ {
        Some(Prim::U64)
    } else if dt == "U32"@ {
        Some(Prim::U32)
    } else if dt == "U16"@ {
        Some(Prim::U16)
    } else if dt == "U8"@ || dt == "BOOL"@ {
        Some(Prim::U8)
    } else {
        None
    }
}

/// Read a dtype label.
pub fn parse_prim(dtype: &str) -> (r: Option<Prim>)
    ensures
        r == prim_of(dtype@),
{
    if same(dtype, "F64") {
        Some(Prim::F64)
    } else if same(dtype, "F32") {
        Some(Prim::F32)
    } else if same(dtype, "F16") {
        Some(Prim::F16)
    } else if same(dtype, "BF16") {
        Some(Prim::BF16)
    } else if same(dtype, "I64") {
        Some(Prim::I64)
    } else if same(dtype, "I32") {
        Some(Prim::I32)
    } else if same(dtype, "I16") {
        Some(Prim::I16)
    } else if same(dtype, "I8") {
        Some(Prim::I8)
    } else if same(dtype, "U64") {
        Some(Prim::U64)
    } else if same(dtype, "U32") {
        Some(Prim::U32)
    } else if same(dtype, "U16") {
        Some(Prim::U16)
    } else if same(dtype, "U8") || same(dtype, "BOOL") {
        Some(Prim::U8)
    } else {
        None
    }
}

impl Prim {
    /// The number of bytes.
    pub open spec fn bytes(self) -> nat {
        match self {
            Prim::F64 => 8,
            Prim::I64 => 8,
            Prim::U64 => 8,
            Prim::F32 => 4,
            Prim::I32 => 4,
            Prim::U32 => 4,
            Prim::F16 => 2,
            Prim::BF16 => 2,
            Prim::I16 => 2,
            Prim::U16 => 2,
            Prim::I8 => 1,
            Prim::U8 => 1,
        }
    }

    /// The number of bytes.
    pub fn size(self) -> (r: usize)
        ensures
            r == self.bytes(),
            1 <= r <= 8,
    {
        match self {
            Prim::F64 => 8,
            Prim::I64 => 8,
            Prim::U64 => 8,
            Prim::F32 => 4,
            Prim::I32 => 4,
            Prim::U32 => 4,
            Prim::F16 => 2,
            Prim::BF16 => 2,
            Prim::I16 => 2,
            Prim::U16 => 2,
            Prim::I8 => 1,
            Prim::U8 => 1,
        }
    }
}

/// The size of a dtype's elements in bytes.
pub open spec fn size_of_item(dt: Seq<char>) -> Option<usize> {
    match prim_of(dt) {
        Some(p) => Some(p.bytes() as usize),
        None => None,
    }
}

/// The size of a dtype's elements in bytes, if the dtype is known.
pub fn item_size(dtype: &str) -> (r: Option<usize>)
    ensures
        r == size_of_item(dtype@),
        r is Some ==> 1 <= r->0 <= 8,
{
    match parse_prim(dtype) {
        Some(p) => Some(p.size()),
        None => None,
    }
}

proof fn lemma_labels()
    ensures
        prim_of("F64"@) == Some(Prim::F64),
        prim_of("F32"@) == Some(Prim::F32),
        prim_of("F16"@) == Some(Prim::F16),
        prim_of("BF16"@) == Some(Prim::BF16),
        prim_of("I64"@) == Some(Prim::I64),
        prim_of("I32"@) == Some(Prim::I32),
        prim_of("I16"@) == Some(Prim::I16),
        prim_of("I8"@) == Some(Prim::I8),
        prim_of("U64"@) == Some(Prim::U64),
        prim_of("U32"@) == Some(Prim::U32),
        prim_of("U16"@) == Some(Prim::U16),
        prim_of("U8"@) == Some(Prim::U8),
{
    reveal_strlit("F64");
    reveal_strlit("F32");
    reveal_strlit("F16");
    reveal_strlit("BF16");
    reveal_strlit("I64");
    reveal_strlit("I32");
    reveal_strlit("I16");
    reveal_strlit("I8");
    reveal_strlit("U64");
    reveal_strlit("U32");
    reveal_strlit("U16");
    reveal_strlit("U8");
    assert("F64"@[0] == 'F' && "F64"@[1] == '6');
    assert("F32"@[0] == 'F' && "F32"@[1] == '3');
    assert("F16"@[0] == 'F' && "F16"@[1] == '1');
    assert("I64"@[0] == 'I' && "I64"@[1] == '6');
    assert("I32"@[0] == 'I' && "I32"@[1] == '3');
    assert("I16"@[0] == 'I' && "I16"@[1] == '1');
    assert("U64"@[0] == 'U' && "U64"@[1] == '6');
    assert("U32"@[0] == 'U' && "U32"@[1] == '3');
    assert("U16"@[0] == 'U' && "U16"@[1] == '1');
    assert("I8"@[0] == 'I');
    assert("U8"@[0] == 'U');
}

/// The dtypes of a given width.
pub open spec fn dtypes_of_width(size: Option<usize>) -> Seq<Seq<char>> {
    if size == Some(1usize) {
        seq!["I8"@, "U8"@]
    } else if size == Some(2usize) {
        seq!["F16"@, "BF16"@, "I16"@, "U16"@]
    } else if size == Some(4usize) {
        seq!["F32"@, "I32"@, "U32"@]
    } else if size == Some(8usize) {
        seq!["F64"@, "I64"@, "U64"@]
    } else {
        seq![]
    }
}

/// The menu entries of views.
pub open spec fn menu_texts(views: Seq<ViewDtype>) -> Seq<Seq<char>> {
    views.map_values(|v: ViewDtype| v.menu_text())
}

/// Whether a dtype is another one.
pub open spec fn other_than(stored: Seq<char>) -> spec_fn(Seq<char>) -> bool {
    |dt: Seq<char>| dt != stored
}

fn push_other(opts: &mut Vec<ViewDtype>, dt: &'static str, stored: &str)
    ensures
        final(opts)@ == if dt@ != stored@ {
            old(opts)@.push(ViewDtype::As(dt))
        } else {
            old(opts)@
        },
{
    if !same(dt, stored) {
        opts.push(ViewDtype::As(dt));
    }
}

/// The list of views for a stored dtype: the stored one, the other dtypes of the same
/// width, then the 4-bit ones.
pub fn view_options(stored: &str) -> (r: Vec<ViewDtype>)
    ensures
        menu_texts(r@) == seq!["stored"@] + dtypes_of_width(size_of_item(stored@)).filter(
            other_than(stored@),
        ) + seq!["u4·lo"@, "u4·hi"@, "u4·packed"@, "i4·lo"@, "i4·hi"@, "i4·packed"@],
        r@.len() >= 7,
        r@[0] == ViewDtype::Stored,
        forall|i: int|
            1 <= i < r@.len() - 6 ==> (#[trigger] r@[i]) is As && size_of_item(r@[i].menu_text())
                == size_of_item(stored@),
{
    let mut opts: Vec<ViewDtype> = Vec::new();
    opts.push(ViewDtype::Stored);
    let size = item_size(stored);
    let ghost names = dtypes_of_width(size);
    let ghost keep = other_than(stored@);
    proof {
        lemma_labels();
    }
    if size == Some(1usize) {
        push_other(&mut opts, "I8", stored);
        push_other(&mut opts, "U8", stored);
        proof {
            assert(names =~= Seq::empty().push("I8"@).push("U8"@));
            Seq::empty().push("I8"@).lemma_filter_push("U8"@, keep);
            Seq::<Seq<char>>::empty().lemma_filter_push("I8"@, keep);
        }
    } else if size == Some(2usize) {
        push_other(&mut opts, "F16", stored);
        push_other(&mut opts, "BF16", stored);
        push_other(&mut opts, "I16", stored);
        push_other(&mut opts, "U16", stored);
        proof {
            assert(names =~= Seq::empty().push("F16"@).push("BF16"@).push("I16"@).push("U16"@));
            Seq::empty().push("F16"@).push("BF16"@).push("I16"@).lemma_filter_push("U16"@, keep);
            Seq::empty().push("F16"@).push("BF16"@).lemma_filter_push("I16"@, keep);
            Seq::empty().push("F16"@).lemma_filter_push("BF16"@, keep);
            Seq::<Seq<char>>::empty().lemma_filter_push("F16"@, keep);
        }
    } else if size == Some(4usize) {
        push_other(&mut opts, "F32", stored);
        push_other(&mut opts, "I32", stored);
        push_other(&mut opts, "U32", stored);
        proof {
            assert(names =~= Seq::empty().push("F32"@).push("I32"@).push("U32"@));
            Seq::empty().push("F32"@).push("I32"@).lemma_filter_push("U32"@, keep);
            Seq::empty().push("F32"@).lemma_filter_push("I32"@, keep);
            Seq::<Seq<char>>::empty().lemma_filter_push("F32"@, keep);
        }
    } else if size == Some(8usize) {
        push_other(&mut opts, "F64", stored);
        push_other(&mut opts, "I64", stored);
        push_other(&mut opts, "U64", stored);
        proof {
            assert(names =~= Seq::empty().push("F64"@).push("I64"@).push("U64"@));
            Seq::empty().push("F64"@).push("I64"@).lemma_filter_push("U64"@, keep);
            Seq::empty().push("F64"@).lemma_filter_push("I64"@, keep);
            Seq::<Seq<char>>::empty().lemma_filter_push("F64"@, keep);
        }
    }
    proof {
        assert(menu_texts(opts@) =~= seq!["stored"@] + names.filter(keep));
        assert forall|i: int| 1 <= i < opts@.len() implies (#[trigger] opts@[i]) is As
            && size_of_item(opts@[i].menu_text()) == size_of_item(stored@) by {}
    }
    let ghost head = opts@;
    opts.push(ViewDtype::U4Lo);
    opts.push(ViewDtype::U4Hi);
    opts.push(ViewDtype::U4Packed);
    opts.push(ViewDtype::I4Lo);
    opts.push(ViewDtype::I4Hi);
    opts.push(ViewDtype::I4Packed);
    proof {
        assert(menu_texts(opts@) =~= menu_texts(head) + seq![
            "u4·lo"@,
            "u4·hi"@,
            "u4·packed"@,
            "i4·lo"@,
            "i4·hi"@,
            "i4·packed"@,
        ]);
    }
    opts
}

// ---------------------------------------------------------------------------
// Which indices are shown

/// The numbers `from`, ..., `to - 1`.
pub open spec fn run_of(from: int, to: int) -> Seq<usize> {
    Seq::new(
        if from <= to {
            (to - from) as nat
        } else {
            0
        },
        |i: int| (from + i) as usize,
    )
}

fn push_run(out: &mut Vec<usize>, from: usize, to: usize)
    requires
        from <= to,
    ensures
        final(out)@ == old(out)@ + run_of(from as int, to as int),
{
    let ghost before = out@;
    let mut i: usize = from;
    while i < to
        invariant
            from <= i <= to,
            out@ =~= before + run_of(from as int, i as int),
        decreases to - i,
    {
        out.push(i);
        i = i + 1;
    }
}

/// The index that stands in place `i` of `k` evenly spaced ones of `0..n`.
pub open spec fn grid_index(n: int, k: int, i: int) -> int {
    (i * (n - 1) + (k - 1) / 2) / (k - 1)
}

/// At most `k` evenly spaced indices of `0..n`.
pub open spec fn grid_of(n: int, k: int) -> Seq<usize> {
    if n <= k {
        run_of(0, n)
    } else if k == 1 {
        seq![0usize]
    } else {
        Seq::new(k as nat, |i: int| grid_index(n, k, i) as usize)
    }
}

proof fn lemma_grid_bound(n: int, k: int, i: int)
    requires
        1 < k < n,
        0 <= i < k,
    ensures
        0 <= grid_index(n, k, i) <= n - 1,
        grid_index(n, k, 0) == 0,
        grid_index(n, k, k - 1) == n - 1,
        i > 0 ==> grid_index(n, k, i - 1) < grid_index(n, k, i),
{
    let a = n - 1;
    let b = k - 1;
    let h = b / 2;
    assert((b * a + h) / b == a) by (nonlinear_arith)
        requires
            b > 0,
            0 <= h < b,
    ;
    assert((0 * a + h) / b == 0) by (nonlinear_arith)
        requires
            b > 0,
            0 <= h < b,
    ;
    let x = i * a + h;
    assert(0 <= x <= b * a + h) by (nonlinear_arith)
        requires
            0 <= i <= b,
            a >= 0,
            h >= 0,
            x == i * a + h,
    ;
    vstd::arithmetic::div_mod::lemma_div_is_ordered(x, b * a + h, b);
    vstd::arithmetic::div_mod::lemma_div_pos_is_pos(x, b);
    if i > 0 {
        let y = (i - 1) * a + h;
        assert(y + b <= x) by (nonlinear_arith)
            requires
                x == i * a + h,
                y == (i - 1) * a + h,
                b < a,
        ;
        vstd::arithmetic::div_mod::lemma_div_is_ordered(y + b, x, b);
        assert((y + b) / b == y / b + 1) by (nonlinear_arith)
            requires
                b > 0,
        ;
    }
}

/// Up to `k` evenly spaced indices of `0..n`, always with `0` and `n - 1` where `k > 1`.
pub fn sample_indices(n: usize, k: usize) -> (r: Vec<usize>)
    ensures
        r@ == grid_of(n as int, k as int),
{
    let mut r: Vec<usize> = Vec::new();
    if n <= k {
        push_run(&mut r, 0, n);
        return r;
    }
    if k == 1 {
        r.push(0);
        proof {
            assert(r@ =~= seq![0usize]);
        }
        return r;
    }
    let mut i: usize = 0;
    while i < k
        invariant
            i <= k,
            k < n,
            k != 1,
            r@ =~= grid_of(n as int, k as int).take(i as int),
        decreases k - i,
    {
        proof {
            lemma_grid_bound(n as int, k as int, i as int);
            assert(0 <= i * (n - 1) <= (k - 1) * (n - 1)) by (nonlinear_arith)
                requires
                    0 <= i <= k - 1,
                    n >= 1,
            ;
            assert((k - 1) * (n - 1) <= 0xffff_ffff_ffff_ffff * 0xffff_ffff_ffff_ffff) by (
            nonlinear_arith)
                requires
                    1 <= k <= 0xffff_ffff_ffff_ffff,
                    1 <= n <= 0xffff_ffff_ffff_ffff,
            ;
        }
        let along: u128 = (i as u128) * ((n - 1) as u128);
        let half: u128 = ((k - 1) / 2) as u128;
        let at: u128 = (along + half) / ((k - 1) as u128);
        r.push(at as usize);
        i = i + 1;
    }
    proof {
        assert(grid_of(n as int, k as int).take(k as int) =~= grid_of(n as int, k as int));
    }
    r
}

/// A list of indices ascends strictly.
pub open spec fn ascends(s: Seq<usize>) -> bool {
    forall|i: int, j: int| 0 <= i < j < s.len() ==> #[trigger] s[i] < #[trigger] s[j]
}

proof fn lemma_grid_order(n: int, k: int, i: int, j: int)
    requires
        1 < k < n,
        0 <= i < j < k,
    ensures
        grid_index(n, k, i) < grid_index(n, k, j),
    decreases j - i,
{
    lemma_grid_bound(n, k, j);
    if i < j - 1 {
        lemma_grid_order(n, k, i, j - 1);
    }
}

/// The evenly spaced indices are at most as many as asked for, lie in `0..n`, ascend
/// strictly, begin with the first and, where more than one is asked for, end with the
/// last.
pub proof fn law_grid_spans(n: usize, k: usize)
    requires
        n > 0,
        k > 0,
    ensures
        0 < grid_of(n as int, k as int).len() <= k,
        forall|i: int|
            0 <= i < grid_of(n as int, k as int).len() ==> #[trigger] grid_of(n as int, k as int)[i]
                < n,
        ascends(grid_of(n as int, k as int)),
        grid_of(n as int, k as int)[0] == 0,
        k > 1 ==> grid_of(n as int, k as int).last() == n - 1,
{
    let g = grid_of(n as int, k as int);
    if n > k && k > 1 {
        lemma_grid_bound(n as int, k as int, 0);
        lemma_grid_bound(n as int, k as int, k - 1);
        assert forall|i: int| 0 <= i < g.len() implies #[trigger] g[i] < n by {
            lemma_grid_bound(n as int, k as int, i);
        }
        assert forall|i: int, j: int| 0 <= i < j < g.len() implies #[trigger] g[i] < #[trigger] g[j] by {
            lemma_grid_bound(n as int, k as int, i);
            lemma_grid_bound(n as int, k as int, j);
            lemma_grid_order(n as int, k as int, i, j);
        }
    }
}

/// How many indices the edges view shows on an axis of `max` cells: as many at either
/// end, with one cell left for the gap.
pub open spec fn edge_count(max: int) -> int {
    if max >= 1 {
        2 * ((max - 1) / 2)
    } else {
        0
    }
}

/// The number of indices that the edges view shows on an axis of `max` cells, which
/// leaves one for the gap.
pub fn edge_total(max: usize) -> (r: usize)
    ensures
        r == edge_count(max as int),
{
    if max >= 1 {
        2 * ((max - 1) / 2)
    } else {
        0
    }
}

/// The first and the last indices of `0..n`, `tail` of them at the end. All where they
/// fit.
pub open spec fn edges_of(n: int, max: int, tail: int) -> Seq<usize> {
    let total = edge_count(max);
    let t = if tail <= total {
        tail
    } else {
        total
    };
    if n <= total {
        run_of(0, n)
    } else {
        run_of(0, total - t) + run_of(n - t, n)
    }
}

/// The first and last indices of `0..n` that fit on an axis of `max` cells, `tail` of
/// them from the end.
pub fn edge_indices(n: usize, max: usize, tail: usize) -> (r: Vec<usize>)
    ensures
        r@ == edges_of(n as int, max as int, tail as int),
{
    let total = edge_total(max);
    let mut r: Vec<usize> = Vec::new();
    if n <= total {
        push_run(&mut r, 0, n);
    } else {
        let t: usize = if tail <= total {
            tail
        } else {
            total
        };
        push_run(&mut r, 0, total - t);
        push_run(&mut r, n - t, n);
    }
    r
}

/// `max` neighbouring indices of `0..n` from `start` on, moved back where they would
/// reach beyond the end.
pub open spec fn window_of(n: int, max: int, start: int) -> Seq<usize> {
    let shown = if n <= max {
        n
    } else {
        max
    };
    let first = if start <= n - shown {
        start
    } else {
        n - shown
    };
    run_of(first, first + shown)
}

/// Neighbouring indices from `start` on, as many as fit.
pub fn window_indices(n: usize, max: usize, start: usize) -> (r: Vec<usize>)
    ensures
        r@ == window_of(n as int, max as int, start as int),
{
    let shown: usize = if n <= max {
        n
    } else {
        max
    };
    let first: usize = if start <= n - shown {
        start
    } else {
        n - shown
    };
    let mut r: Vec<usize> = Vec::new();
    push_run(&mut r, first, first + shown);
    r
}

/// The indices that an edges or window view shows lie in `0..n` and ascend strictly, and
/// there are at most `max` of them; a window is as long as fits.
pub proof fn law_edges_and_windows_stay_inside(n: usize, max: usize, at: usize)
    requires
        n > 0,
        max > 0,
    ensures
        ascends(edges_of(n as int, max as int, at as int)),
        edges_of(n as int, max as int, at as int).len() <= max,
        forall|i: int|
            0 <= i < edges_of(n as int, max as int, at as int).len() ==> #[trigger] edges_of(
                n as int,
                max as int,
                at as int,
            )[i] < n,
        ascends(window_of(n as int, max as int, at as int)),
        forall|i: int|
            0 <= i < window_of(n as int, max as int, at as int).len() ==> #[trigger] window_of(
                n as int,
                max as int,
                at as int,
            )[i] < n,
        window_of(n as int, max as int, at as int).len() == if n <= max {
            n
        } else {
            max
        },
{
}

// ---------------------------------------------------------------------------
// What the bytes stand for

/// A decoded element. A float is carried by its bits.
#[derive(Clone, Copy, Debug, PartialEq, Eq, Structural)]
pub enum Number {
    Int(i128),
    F64(u64),
    F32(u32),
    F16(u16),
    BF16(u16),
    /// No number: the dtype is not known, or the bytes are missing.
    Unknown,
}

/// How many values `n` bytes can have.
spec fn byte_range(n: nat) -> nat
    decreases n,
{
    if n == 0 {
        1
    } else {
        256 * byte_range((n - 1) as nat)
    }
}

proof fn lemma_little_endian_bound(b: Seq<u8>)
    ensures
        little_endian(b) < byte_range(b.len()),
    decreases b.len(),
{
    if b.len() > 0 {
        lemma_little_endian_bound(b.skip(1));
    }
}

/// The number that up to eight bytes denote, the lowest first.
pub fn unsigned_value(bytes: &[u8]) -> (r: u64)
    requires
        bytes.len() <= 8,
    ensures
        r == little_endian(bytes@),
{
    let ghost b = bytes@;
    let n = bytes.len();
    let mut i: usize = n;
    let mut v: u64 = 0;
    proof {
        assert(b.skip(n as int) =~= Seq::empty());
        reveal_with_fuel(byte_range, 9);
    }
    while i > 0
        invariant
            i <= n <= 8,
            n == bytes.len(),
            b == bytes@,
            v == little_endian(b.skip(i as int)),
        decreases i,
    {
        proof {
            assert(b.skip(i - 1)[0] == b[i - 1]);
            assert(b.skip(i - 1).skip(1) =~= b.skip(i as int));
            lemma_little_endian_bound(b.skip(i - 1));
            reveal_with_fuel(byte_range, 9);
        }
        v = bytes[i - 1] as u64 + 256 * v;
        i = i - 1;
    }
    proof {
        assert(b.skip(0) =~= b);
    }
    v
}

/// A number of `bits` bits in two's complement.
pub open spec fn twos_complement(v: int, modulus: int) -> int {
    if 2 * v >= modulus {
        v - modulus
    } else {
        v
    }
}

/// The element that little-endian bytes denote.
pub open spec fn prim_value(p: Prim, b: Seq<u8>) -> Number {
    let v = little_endian(b) as int;
    match p {
        Prim::F64 => Number::F64(v as u64),
        Prim::F32 => Number::F32(v as u32),
        Prim::F16 => Number::F16(v as u16),
        Prim::BF16 => Number::BF16(v as u16),
        Prim::I64 => Number::Int(twos_complement(v, 0x1_0000_0000_0000_0000) as i128),
        Prim::I32 => Number::Int(twos_complement(v, 0x1_0000_0000) as i128),
        Prim::I16 => Number::Int(twos_complement(v, 0x1_0000) as i128),
        Prim::I8 => Number::Int(twos_complement(v, 0x100) as i128),
        Prim::U64 => Number::Int(v as i128),
        Prim::U32 => Number::Int(v as i128),
        Prim::U16 => Number::Int(v as i128),
        Prim::U8 => Number::Int(v as i128),
    }
}

fn signed_value(v: u64, modulus: i128) -> (r: i128)
    requires
        v < modulus <= 0x1_0000_0000_0000_0000,
    ensures
        r == twos_complement(v as int, modulus as int),
{
    let n: i128 = v as i128;
    if 2 * n >= modulus {
        n - modulus
    } else {
        n
    }
}

/// Decode little-endian bytes.
pub fn decode_prim(p: Prim, b: &[u8]) -> (r: Number)
    requires
        b.len() == p.bytes(),
    ensures
        r == prim_value(p, b@),
{
    let v = unsigned_value(b);
    proof {
        lemma_little_endian_bound(b@);
        reveal_with_fuel(byte_range, 9);
    }
    match p {
        Prim::F64 => Number::F64(v),
        Prim::F32 => Number::F32(v as u32),
        Prim::F16 => Number::F16(v as u16),
        Prim::BF16 => Number::BF16(v as u16),
        Prim::I64 => Number::Int(signed_value(v, 0x1_0000_0000_0000_0000)),
        Prim::I32 => Number::Int(signed_value(v, 0x1_0000_0000)),
        Prim::I16 => Number::Int(signed_value(v, 0x1_0000)),
        Prim::I8 => Number::Int(signed_value(v, 0x100)),
        Prim::U64 => Number::Int(v as i128),
        Prim::U32 => Number::Int(v as i128),
        Prim::U16 => Number::Int(v as i128),
        Prim::U8 => Number::Int(v as i128),
    }
}

/// The element that bytes of a dtype denote.
pub open spec fn dtype_value(dt: Seq<char>, b: Seq<u8>) -> Number {
    match prim_of(dt) {
        Some(p) => prim_value(p, b),
        None => Number::Unknown,
    }
}

/// Decode the bytes of one element of a dtype.
pub fn decode(dtype: &str, b: &[u8]) -> (r: Number)
    requires
        size_of_item(dtype@) is Some ==> b.len() == size_of_item(dtype@)->0,
    ensures
        r == dtype_value(dtype@, b@),
{
    match parse_prim(dtype) {
        Some(p) => decode_prim(p, b),
        None => Number::Unknown,
    }
}

/// The `i`-th nibble of bytes, the lowest first.
pub open spec fn nibble_of(b: Seq<u8>, i: int) -> int {
    if i % 2 == 0 {
        b[i / 2] as int % 16
    } else {
        b[i / 2] as int / 16
    }
}

/// The value of a nibble.
pub open spec fn nibble_value(nibble: int, with_sign: bool) -> Number {
    Number::Int(
        if with_sign {
            twos_complement(nibble, 16) as i128
        } else {
            nibble as i128
        },
    )
}

/// The `sub`-th value of a container under a view. The packed views take its nibble
/// `sub`, the low and high ones always the lowest and the highest.
pub open spec fn view_value(view: ViewDtype, dt: Seq<char>, b: Seq<u8>, sub: int) -> Number {
    match view {
        ViewDtype::Stored => dtype_value(dt, b),
        ViewDtype::As(other) => dtype_value(other@, b),
        ViewDtype::U4Lo => nibble_value(nibble_of(b, 0), false),
        ViewDtype::I4Lo => nibble_value(nibble_of(b, 0), true),
        ViewDtype::U4Hi => nibble_value(nibble_of(b, 2 * b.len() - 1), false),
        ViewDtype::I4Hi => nibble_value(nibble_of(b, 2 * b.len() - 1), true),
        ViewDtype::U4Packed => nibble_value(nibble_of(b, sub), false),
        ViewDtype::I4Packed => nibble_value(nibble_of(b, sub), true),
        ViewDtype::Unpacked => Number::Unknown,
    }
}

/// Whether a container of `len` bytes can be decoded whole where the view asks for it.
pub open spec fn view_fits(view: ViewDtype, dt: Seq<char>, len: nat) -> bool {
    match view.whole_dtype(dt) {
        Some(d) => size_of_item(d) is Some ==> len == size_of_item(d)->0,
        None => true,
    }
}

/// Decode the `sub`-th value of a stored container under a view.
pub fn decode_view(view: ViewDtype, dtype: &str, bytes: &[u8], sub: usize) -> (r: Number)
    requires
        1 <= bytes.len() <= 8,
        view_fits(view, dtype@, bytes.len() as nat),
        view.is_packed() ==> sub < 2 * bytes.len(),
    ensures
        r == view_value(view, dtype@, bytes@, sub as int),
{
    let nib: usize = match view {
        ViewDtype::Stored => {
            return decode(dtype, bytes);
        },
        ViewDtype::As(other) => {
            return decode(other, bytes);
        },
        ViewDtype::Unpacked => {
            return Number::Unknown;
        },
        ViewDtype::U4Packed => sub,
        ViewDtype::I4Packed => sub,
        ViewDtype::U4Hi => 2 * bytes.len() - 1,
        ViewDtype::I4Hi => 2 * bytes.len() - 1,
        _ => 0,
    };
    let b = bytes[nib / 2];
    let nibble: u8 = if nib % 2 == 0 {
        b % 16
    } else {
        b / 16
    };
    if view.is_signed() {
        Number::Int(signed_value(nibble as u64, 16))
    } else {
        Number::Int(nibble as i128)
    }
}

// ---------------------------------------------------------------------------
// Where the bytes are

/// The indices `start..end` of one dimension.
#[derive(Clone, Copy, Debug, PartialEq, Eq, Structural)]
pub struct Span {
    pub start: usize,
    pub end: usize,
}

impl Span {
    pub open spec fn len(self) -> nat {
        if self.start <= self.end {
            (self.end - self.start) as nat
        } else {
            0
        }
    }
}

/// How many containers a region has.
pub open spec fn volume_of(region: Seq<Span>) -> nat
    decreases region.len(),
{
    if region.len() == 0 {
        1
    } else {
        volume_of(region.drop_last()) * region.last().len()
    }
}

/// The region that a whole shape makes.
pub open spec fn whole(shape: Seq<usize>) -> Seq<Span> {
    shape.map_values(|d: usize| Span { start: 0, end: d })
}

/// `want` is a region without an empty dimension inside the region `src`.
pub open spec fn nested(src: Seq<Span>, want: Seq<Span>) -> bool {
    &&& src.len() == want.len()
    &&& forall|d: int|
        #![trigger src[d]]
        #![trigger want[d]]
        0 <= d < src.len() ==> src[d].start <= want[d].start < want[d].end <= src[d].end
}

/// Where the `k`-th container of the region `want`, in row-major order, stands among the
/// containers of the region `src`.
pub open spec fn source_index(src: Seq<Span>, want: Seq<Span>, k: int) -> int
    decreases src.len(),
{
    if src.len() == 0 {
        0
    } else {
        let w = want.last();
        let s = src.last();
        source_index(src.drop_last(), want.drop_last(), k / w.len() as int) * s.len() + (w.start + k
            % w.len() as int - s.start)
    }
}

proof fn lemma_nested_prefix(src: Seq<Span>, want: Seq<Span>, n: int)
    requires
        nested(src, want),
        0 <= n <= src.len(),
    ensures
        nested(src.take(n), want.take(n)),
{
    assert forall|d: int|
        #![trigger src.take(n)[d]]
        #![trigger want.take(n)[d]]
        0 <= d < n implies src.take(n)[d].start <= want.take(n)[d].start < want.take(n)[d].end
        <= src.take(n)[d].end by {
        assert(src.take(n)[d] == src[d]);
        assert(want.take(n)[d] == want[d]);
    }
}

proof fn lemma_source_index(src: Seq<Span>, want: Seq<Span>, k: int)
    requires
        nested(src, want),
        0 <= k < volume_of(want),
    ensures
        k <= source_index(src, want, k) < volume_of(src),
        volume_of(want) <= volume_of(src),
    decreases src.len(),
{
    if src.len() > 0 {
        let n = src.len() - 1;
        let s = src[n];
        let w = want[n];
        let l = w.len() as int;
        let m = s.len() as int;
        let a = src.drop_last();
        let b = want.drop_last();
        lemma_nested_prefix(src, want, n);
        assert(src.take(n) =~= a);
        assert(want.take(n) =~= b);
        let v = volume_of(b) as int;
        let q = k / l;
        let r = k % l;
        assert(0 <= q < v && 0 <= r < l && k == q * l + r) by (nonlinear_arith)
            requires
                0 <= k < v * l,
                l > 0,
                q == k / l,
                r == k % l,
        ;
        lemma_source_index(a, b, q);
        let x = source_index(a, b, q);
        let big = volume_of(a) as int;
        let y = w.start + r - s.start;
        assert(0 <= x * m + y < big * m) by (nonlinear_arith)
            requires
                0 <= x < big,
                0 <= y < m,
        ;
        assert(k <= x * m + y) by (nonlinear_arith)
            requires
                k == q * l + r,
                0 <= q <= x,
                0 <= l <= m,
                r <= y,
        ;
        assert(v * l <= big * m) by (nonlinear_arith)
            requires
                0 <= v <= big,
                0 <= l <= m,
        ;
    }
}

proof fn lemma_volume_prefix(region: Seq<Span>, n: int)
    requires
        0 <= n <= region.len(),
        forall|d: int| 0 <= d < region.len() ==> (#[trigger] region[d]).len() > 0,
    ensures
        1 <= volume_of(region.take(n)) <= volume_of(region),
    decreases region.len(),
{
    if region.len() == 0 {
        assert(region.take(n) =~= region);
    } else {
        let t = region.drop_last();
        let l = region[region.len() - 1].len() as int;
        assert forall|d: int| 0 <= d < t.len() implies (#[trigger] t[d]).len() > 0 by {
            assert(t[d] == region[d]);
        }
        let v = volume_of(t) as int;
        lemma_volume_prefix(t, t.len() as int);
        assert(t.take(t.len() as int) =~= t);
        assert(v <= v * l && 1 <= v * l) by (nonlinear_arith)
            requires
                v >= 1,
                l >= 1,
        ;
        if n < region.len() {
            lemma_volume_prefix(t, n);
            assert(t.take(n) =~= region.take(n));
        } else {
            assert(region.take(n) =~= region);
        }
    }
}

/// How many containers the first `n` dimensions of a region make.
fn count_containers(region: &Vec<Span>) -> (r: usize)
    requires
        forall|d: int| 0 <= d < region.len() ==> (#[trigger] region@[d]).len() > 0,
        volume_of(region@) <= usize::MAX,
    ensures
        r == volume_of(region@),
{
    let mut r: usize = 1;
    let mut i: usize = 0;
    while i < region.len()
        invariant
            i <= region.len(),
            forall|d: int| 0 <= d < region.len() ==> (#[trigger] region@[d]).len() > 0,
            volume_of(region@) <= usize::MAX,
            r == volume_of(region@.take(i as int)),
        decreases region.len() - i,
    {
        proof {
            lemma_volume_prefix(region@, i + 1);
            assert(region@.take(i + 1).drop_last() =~= region@.take(i as int));
            assert(region@[i as int].len() > 0);
        }
        r = r * (region[i].end - region[i].start);
        i = i + 1;
    }
    proof {
        assert(region@.take(i as int) =~= region@);
    }
    r
}

fn locate(src: &Vec<Span>, want: &Vec<Span>, n: usize, k: usize) -> (r: usize)
    requires
        n <= src.len(),
        nested(src@, want@),
        k < volume_of(want@.take(n as int)),
        source_index(src@.take(n as int), want@.take(n as int), k as int) <= usize::MAX,
    ensures
        r == source_index(src@.take(n as int), want@.take(n as int), k as int),
    decreases n,
{
    if n == 0 {
        return 0;
    }
    let ghost a = src@.take(n as int);
    let ghost b = want@.take(n as int);
    proof {
        lemma_nested_prefix(src@, want@, n as int);
        lemma_source_index(a, b, k as int);
        assert(a.drop_last() =~= src@.take(n - 1));
        assert(b.drop_last() =~= want@.take(n - 1));
        assert(a.last() == src@[n - 1]);
        assert(b.last() == want@[n - 1]);
        assert(src@[n - 1].start <= want@[n - 1].start);
    }
    let w = want[n - 1];
    let s = src[n - 1];
    let l: usize = w.end - w.start;
    let m: usize = s.end - s.start;
    proof {
        let v = volume_of(b.drop_last()) as int;
        let kk = k as int;
        let ll = l as int;
        assert(0 <= kk / ll < v && 0 <= kk % ll < ll) by (nonlinear_arith)
            requires
                0 <= kk < v * ll,
                ll > 0,
        ;
        lemma_nested_prefix(src@, want@, n - 1);
        lemma_source_index(a.drop_last(), b.drop_last(), kk / ll);
        let x = source_index(a.drop_last(), b.drop_last(), kk / ll);
        let mm = m as int;
        assert(x <= x * mm) by (nonlinear_arith)
            requires
                x >= 0,
                mm >= 1,
        ;
    }
    let outer = locate(src, want, n - 1, k / l);
    proof {
        let x = outer as int;
        let mm = m as int;
        assert(0 <= x * mm) by (nonlinear_arith)
            requires
                x >= 0,
                mm >= 0,
        ;
    }
    outer * m + ((w.start - s.start) + k % l)
}

/// What `gather_region` gives: the containers of `want` in order.
pub open spec fn gathers(
    out: Seq<u8>,
    src: Seq<u8>,
    src_region: Seq<Span>,
    want: Seq<Span>,
    item: nat,
) -> bool {
    &&& out.len() == volume_of(want) * item
    &&& forall|k: int, b: int|
        0 <= k < volume_of(want) && 0 <= b < item ==> #[trigger] out[k * item + b]
            == src[source_index(src_region, want, k) * item + b]
}

/// Copy the sub-region `want` out of a row-major buffer of `item`-byte containers that
/// are laid out over `src_region`. Both regions use absolute indices. Of the buffer no more
/// is needed than the containers that are copied.
pub fn gather_region(src: &[u8], src_region: &Vec<Span>, want: &Vec<Span>, item: usize) -> (r: Vec<
    u8,
>)
    requires
        nested(src_region@, want@),
        item > 0,
        forall|k: int|
            0 <= k < volume_of(want@) ==> (#[trigger] source_index(src_region@, want@, k) + 1) * item
                <= src.len(),
    ensures
        gathers(r@, src@, src_region@, want@, item as nat),
{
    let ghost volume = volume_of(want@);
    proof {
        assert forall|d: int| 0 <= d < want.len() implies (#[trigger] want@[d]).len() > 0 by {
            assert(want@[d].start < want@[d].end);
        }
        lemma_volume_prefix(want@, want.len() as int);
        assert(want@.take(want.len() as int) =~= want@);
        assert(src_region@.take(want.len() as int) =~= src_region@);
        let top = volume - 1;
        lemma_source_index(src_region@, want@, top);
        let (x, i) = (source_index(src_region@, want@, top), item as int);
        assert(volume <= (x + 1) * i) by (nonlinear_arith)
            requires
                volume <= x + 1,
                i >= 1,
                x >= 0,
        ;
    }
    let n = want.len();
    let total = count_containers(want);
    let mut r: Vec<u8> = Vec::new();
    let mut k: usize = 0;
    while k < total
        invariant
            k <= total,
            n == want.len(),
            total == volume,
            volume == volume_of(want@),
            item > 0,
            nested(src_region@, want@),
            forall|j: int|
                0 <= j < volume ==> (#[trigger] source_index(src_region@, want@, j) + 1) * item
                    <= src.len(),
            want@.take(n as int) == want@,
            src_region@.take(n as int) == src_region@,
            r.len() == k * item,
            forall|j: int, b: int|
                0 <= j < k && 0 <= b < item ==> #[trigger] r@[j * item + b]
                    == src@[source_index(src_region@, want@, j) * item + b],
        decreases total - k,
    {
        proof {
            lemma_source_index(src_region@, want@, k as int);
            let x = source_index(src_region@, want@, k as int);
            let i = item as int;
            assert(x <= x * i && x * i + i == (x + 1) * i) by (nonlinear_arith)
                requires
                    x >= 0,
                    i >= 1,
            ;
        }
        let at = locate(src_region, want, n, k);
        let from: usize = at * item;
        let ghost before = r@;
        let mut b: usize = 0;
        while b < item
            invariant
                b <= item,
                from == at * item,
                from + item <= src.len(),
                r@ =~= before + src@.subrange(from as int, from + b),
            decreases item - b,
        {
            r.push(src[from + b]);
            b = b + 1;
        }
        proof {
            let i = item as int;
            assert((k + 1) * i == k * i + i) by (nonlinear_arith);
            assert forall|j: int, b: int| 0 <= j < k + 1 && 0 <= b < item implies #[trigger] r@[j
                * item + b] == src@[source_index(src_region@, want@, j) * item + b] by {
                if j < k {
                    let kk = k as int;
                    assert(0 <= j * i && j * i + i <= kk * i) by (nonlinear_arith)
                        requires
                            0 <= j < kk,
                            i > 0,
                    ;
                    assert(r@[j * item + b] == before[j * item + b]);
                } else {
                    assert(r@[j * item + b] == src@[from + b]);
                }
            }
        }
        k = k + 1;
    }
    r
}

/// The index of a container in each dimension.
pub open spec fn unraveled(flat: int, shape: Seq<usize>) -> Seq<int>
    decreases shape.len(),
{
    if shape.len() == 0 {
        Seq::empty()
    } else {
        unraveled(flat / shape.last() as int, shape.drop_last()).push(flat % shape.last() as int)
    }
}

/// No dimension is empty.
pub open spec fn no_zero(shape: Seq<usize>) -> bool {
    forall|d: int| 0 <= d < shape.len() ==> #[trigger] shape[d] > 0
}

proof fn lemma_unraveled(flat: int, shape: Seq<usize>)
    requires
        no_zero(shape),
        flat >= 0,
    ensures
        unraveled(flat, shape).len() == shape.len(),
        forall|d: int|
            0 <= d < shape.len() ==> 0 <= #[trigger] unraveled(flat, shape)[d] < shape[d],
    decreases shape.len(),
{
    if shape.len() > 0 {
        let t = shape.drop_last();
        let l = shape[shape.len() - 1] as int;
        assert forall|d: int| 0 <= d < t.len() implies #[trigger] t[d] > 0 by {
            assert(t[d] == shape[d]);
        }
        assert(flat / l >= 0 && 0 <= flat % l < l) by (nonlinear_arith)
            requires
                flat >= 0,
                l > 0,
        ;
        lemma_unraveled(flat / l, t);
    }
}

/// Decompose a flat row-major container index into an index per dimension.
pub fn unravel(flat: usize, shape: &Vec<usize>) -> (r: Vec<usize>)
    requires
        no_zero(shape@),
    ensures
        r.len() == shape.len(),
        forall|d: int| 0 <= d < r.len() ==> #[trigger] r@[d] == unraveled(flat as int, shape@)[d],
        forall|d: int| 0 <= d < r.len() ==> #[trigger] r@[d] < shape@[d],
{
    let n = shape.len();
    let mut r: Vec<usize> = dup_numbers(shape);
    let mut d: usize = n;
    let mut rest: usize = flat;
    proof {
        assert(shape@.take(n as int) =~= shape@);
        lemma_unraveled(flat as int, shape@);
    }
    while d > 0
        invariant
            d <= n,
            n == shape.len(),
            r.len() == n,
            no_zero(shape@),
            unraveled(flat as int, shape@).len() == n,
            forall|j: int|
                0 <= j < d ==> #[trigger] unraveled(flat as int, shape@)[j] == unraveled(
                    rest as int,
                    shape@.take(d as int),
                )[j],
            forall|j: int| d <= j < n ==> #[trigger] r@[j] == unraveled(flat as int, shape@)[j],
        decreases d,
    {
        let ghost s = shape@.take(d as int);
        let ghost t = shape@.take(d - 1);
        proof {
            assert(s.drop_last() =~= t);
            assert(s.last() == shape@[d - 1]);
            assert(shape@[d - 1] > 0);
            assert forall|j: int| 0 <= j < t.len() implies #[trigger] t[j] > 0 by {
                assert(t[j] == shape@[j]);
            }
            let l = shape@[d - 1] as int;
            let f = rest as int;
            assert(f / l >= 0) by (nonlinear_arith)
                requires
                    f >= 0,
                    l > 0,
            ;
            lemma_unraveled(f / l, t);
            assert forall|j: int| 0 <= j < d - 1 implies #[trigger] unraveled(
                flat as int,
                shape@,
            )[j] == unraveled(f / l, t)[j] by {
                assert(unraveled(f, s)[j] == unraveled(f / l, t)[j]);
            }
            assert(unraveled(flat as int, shape@)[d - 1] == unraveled(f, s)[d - 1]);
        }
        r.set(d - 1, rest % shape[d - 1]);
        rest = rest / shape[d - 1];
        d = d - 1;
    }
    r
}

/// The region of the containers `first..=last` of one innermost row.
pub open spec fn span_region(shape: Seq<usize>, first: int, last: int) -> Seq<Span> {
    Seq::new(
        shape.len(),
        |d: int|
            Span {
                start: unraveled(first, shape)[d] as usize,
                end: ((if d + 1 == shape.len() {
                    unraveled(last, shape)[d]
                } else {
                    unraveled(first, shape)[d]
                }) + 1) as usize,
            },
    )
}

/// The axis-aligned region of the containers `first..=last`, which lie within a single
/// innermost row.
pub fn region_for_span(shape: &Vec<usize>, first: usize, last: usize) -> (r: Vec<Span>)
    requires
        no_zero(shape@),
    ensures
        r@ == span_region(shape@, first as int, last as int),
{
    let lo = unravel(first, shape);
    let hi = unravel(last, shape);
    let mut r: Vec<Span> = Vec::new();
    let mut d: usize = 0;
    while d < shape.len()
        invariant
            d <= shape.len(),
            lo.len() == shape.len(),
            hi.len() == shape.len(),
            forall|j: int|
                0 <= j < lo.len() ==> #[trigger] lo@[j] == unraveled(first as int, shape@)[j]
                    && lo@[j] < shape@[j],
            forall|j: int|
                0 <= j < hi.len() ==> #[trigger] hi@[j] == unraveled(last as int, shape@)[j]
                    && hi@[j] < shape@[j],
            r@ =~= span_region(shape@, first as int, last as int).take(d as int),
        decreases shape.len() - d,
    {
        let end: usize = if d + 1 == shape.len() {
            hi[d] + 1
        } else {
            lo[d] + 1
        };
        r.push(Span { start: lo[d], end });
        d = d + 1;
    }
    proof {
        let all = span_region(shape@, first as int, last as int);
        assert(all.take(shape.len() as int) =~= all);
    }
    r
}

proof fn lemma_point(shape: Seq<usize>, flat: int, want: Seq<Span>)
    requires
        no_zero(shape),
        0 <= flat < volume_of(whole(shape)),
        want.len() == shape.len(),
        forall|d: int|
            0 <= d < shape.len() ==> (#[trigger] want[d]).start == unraveled(flat, shape)[d]
                && want[d].end == want[d].start + 1,
    ensures
        source_index(whole(shape), want, 0) == flat,
        volume_of(want) == 1,
    decreases shape.len(),
{
    lemma_unraveled(flat, shape);
    if shape.len() > 0 {
        let n = shape.len() - 1;
        let t = shape.drop_last();
        let l = shape[n] as int;
        assert(whole(shape).drop_last() =~= whole(t));
        let v = volume_of(whole(t)) as int;
        assert(0 <= flat / l < v) by (nonlinear_arith)
            requires
                0 <= flat < v * l,
                l > 0,
        ;
        let u = unraveled(flat / l, t);
        assert forall|d: int| 0 <= d < t.len() implies #[trigger] t[d] > 0 by {
            assert(t[d] == shape[d]);
        }
        lemma_unraveled(flat / l, t);
        let w = want.drop_last();
        assert forall|d: int| 0 <= d < t.len() implies (#[trigger] w[d]).start == u[d] && w[d].end
            == w[d].start + 1 by {
            assert(w[d] == want[d]);
            assert(unraveled(flat, shape)[d] == u[d]);
        }
        lemma_point(t, flat / l, w);
        assert(want[n].start == flat % l);
        assert(want.last().len() == 1);
        assert(0int / 1 == 0 && 0int % 1 == 0);
        assert((flat / l) * l + flat % l == flat) by (nonlinear_arith)
            requires
                l > 0,
        ;
    } else {
        assert(whole(shape) =~= Seq::empty());
    }
}

/// The region of a span of one innermost row covers exactly the containers of the span,
/// in order.
pub proof fn law_span_is_contiguous(shape: Seq<usize>, first: int, last: int, k: int)
    requires
        no_zero(shape),
        shape.len() > 0,
        0 <= first <= last < volume_of(whole(shape)),
        first / shape.last() as int == last / shape.last() as int,
        0 <= k <= last - first,
    ensures
        nested(whole(shape), span_region(shape, first, last)),
        volume_of(span_region(shape, first, last)) == last - first + 1,
        source_index(whole(shape), span_region(shape, first, last), k) == first + k,
{
    let n = shape.len() - 1;
    let l = shape[n] as int;
    let t = shape.drop_last();
    let r = span_region(shape, first, last);
    lemma_unraveled(first, shape);
    lemma_unraveled(last, shape);
    assert forall|d: int| 0 <= d < t.len() implies #[trigger] t[d] > 0 by {
        assert(t[d] == shape[d]);
    }
    let q = first / l;
    let lo = first % l;
    let hi = last % l;
    assert(q * l + lo == first && q * l + hi == last && 0 <= lo <= hi < l) by (nonlinear_arith)
        requires
            l > 0,
            q == first / l,
            q == last / l,
            lo == first % l,
            hi == last % l,
            first <= last,
    ;
    assert(unraveled(first, shape)[n] == lo);
    assert(unraveled(last, shape)[n] == hi);
    assert forall|d: int|
        #![trigger whole(shape)[d]]
        #![trigger r[d]]
        0 <= d < shape.len() implies whole(shape)[d].start <= r[d].start < r[d].end
        <= whole(shape)[d].end by {
        assert(unraveled(first, shape)[d] < shape[d]);
        assert(unraveled(last, shape)[d] < shape[d]);
    }
    assert(whole(shape).drop_last() =~= whole(t));
    let v = volume_of(whole(t)) as int;
    assert(0 <= q < v) by (nonlinear_arith)
        requires
            0 <= first < v * l,
            l > 0,
            q == first / l,
    ;
    let w = r.drop_last();
    lemma_unraveled(q, t);
    assert forall|d: int| 0 <= d < t.len() implies (#[trigger] w[d]).start == unraveled(q, t)[d]
        && w[d].end == w[d].start + 1 by {
        assert(w[d] == r[d]);
        assert(unraveled(first, shape)[d] == unraveled(q, t)[d]);
        assert(unraveled(first, shape)[d] < shape[d]);
    }
    lemma_point(t, q, w);
    let len = hi - lo + 1;
    assert(r.last().len() == len);
    assert(1 * len == len);
    assert(k / len == 0 && k % len == k) by (nonlinear_arith)
        requires
            0 <= k < len,
    ;
}

// ---------------------------------------------------------------------------
// Sampling

/// How the shown rows and columns are chosen.
#[derive(Clone, Copy, Debug, PartialEq, Eq, Structural)]
pub enum SampleMode {
    /// Evenly spaced over the whole matrix.
    Grid,
    /// The first and the last ones; so many of the last.
    Edges { row_tail: usize, col_tail: usize },
    /// Neighbouring ones from a corner on.
    Window { row: usize, col: usize },
}

impl Default for SampleMode {
    fn default() -> (r: SampleMode)
        ensures
            r == SampleMode::Grid,
    {
        SampleMode::Grid
    }
}

/// The rows, columns and slices of a shape of up to three dimensions.
pub open spec fn matrix_of(shape: Seq<usize>) -> Option<(usize, usize, usize)> {
    if shape.len() == 1 {
        Some((1, shape[0], 1))
    } else if shape.len() == 2 {
        Some((shape[0], shape[1], 1))
    } else if shape.len() == 3 {
        Some((shape[1], shape[2], shape[0]))
    } else {
        None
    }
}

fn matrix_dims(shape: &Vec<usize>) -> (r: Option<(usize, usize, usize)>)
    ensures
        r == matrix_of(shape@),
{
    if shape.len() == 1 {
        Some((1, shape[0], 1))
    } else if shape.len() == 2 {
        Some((shape[0], shape[1], 1))
    } else if shape.len() == 3 {
        Some((shape[1], shape[2], shape[0]))
    } else {
        None
    }
}

/// Whether a file holds stored bytes that can be decoded by another dtype.
pub open spec fn reinterpretable(path: Seq<char>) -> bool {
    let ext = path_extension(path);
    ext == Some("safetensors"@) || ext == Some("h5"@) || ext == Some("hdf5"@)
}

fn can_reinterpret(path: &str) -> (b: bool)
    ensures
        b == reinterpretable(path@),
{
    match extension(path) {
        Some(e) => same(e.as_str(), "safetensors") || same(e.as_str(), "h5") || same(
            e.as_str(),
            "hdf5",
        ),
        None => false,
    }
}

/// Which elements of a tensor are shown, and how.
#[derive(Debug)]
pub struct Plan {
    pub rows: Vec<usize>,
    pub cols: Vec<usize>,
    pub total_rows: usize,
    pub total_cols: usize,
    pub slices: usize,
    pub slice: usize,
    pub view: ViewDtype,
    pub overridable: bool,
    /// How many values a container holds.
    pub packing: usize,
}

/// The indices that a mode picks on one axis.
pub open spec fn picked(mode: SampleMode, rows: bool, n: int, max: int) -> Seq<usize> {
    match mode {
        SampleMode::Grid => grid_of(n, max),
        SampleMode::Edges { row_tail, col_tail } => edges_of(
            n,
            max,
            if rows {
                row_tail as int
            } else {
                col_tail as int
            },
        ),
        SampleMode::Window { row, col } => window_of(
            n,
            max,
            if rows {
                row as int
            } else {
                col as int
            },
        ),
    }
}

fn pick(mode: SampleMode, rows: bool, n: usize, max: usize) -> (r: Vec<usize>)
    ensures
        r@ == picked(mode, rows, n as int, max as int),
{
    match mode {
        SampleMode::Grid => sample_indices(n, max),
        SampleMode::Edges { row_tail, col_tail } => edge_indices(
            n,
            max,
            if rows {
                row_tail
            } else {
                col_tail
            },
        ),
        SampleMode::Window { row, col } => window_indices(
            n,
            max,
            if rows {
                row
            } else {
                col
            },
        ),
    }
}

/// Whichever mode picks them, at most `max` indices of `0..n` are shown, in strictly
/// ascending order.
pub proof fn law_picks_are_bounded(mode: SampleMode, rows: bool, n: usize, max: usize)
    requires
        n > 0,
        max > 0,
    ensures
        picked(mode, rows, n as int, max as int).len() <= max,
        forall|i: int|
            0 <= i < picked(mode, rows, n as int, max as int).len() ==> #[trigger] picked(
                mode,
                rows,
                n as int,
                max as int,
            )[i] < n,
        ascends(picked(mode, rows, n as int, max as int)),
{
    match mode {
        SampleMode::Grid => law_grid_spans(n, max),
        SampleMode::Edges { row_tail, col_tail } => law_edges_and_windows_stay_inside(
            n,
            max,
            if rows {
                row_tail
            } else {
                col_tail
            },
        ),
        SampleMode::Window { row, col } => law_edges_and_windows_stay_inside(
            n,
            max,
            if rows {
                row
            } else {
                col
            },
        ),
    }
}

/// At least 1.
pub open spec fn at_least_one(n: usize) -> int {
    if n > 1 {
        n as int
    } else {
        1
    }
}

/// How many values a container holds under a view.
pub open spec fn packing_of(view: ViewDtype, dt: Seq<char>) -> nat {
    match size_of_item(dt) {
        Some(b) => view.values_per(b as nat),
        None => 1,
    }
}

/// The view that applies: the stored dtype where the file's bytes cannot be decoded
/// otherwise.
pub open spec fn effective_view(path: Seq<char>, view: ViewDtype) -> ViewDtype {
    if reinterpretable(path) {
        view
    } else {
        ViewDtype::Stored
    }
}

/// Why a tensor has no sample, if so.
pub open spec fn plan_fault(t: TensorInfo, view: ViewDtype) -> Option<Seq<char>> {
    match matrix_of(t.shape@) {
        None => Some(
            "data preview supports 1D, 2D and 3D tensors only (this one is "@ + decimal(
                t.shape@.len(),
            ) + "D)"@,
        ),
        Some((rows, cols, slices)) => if rows == 0 || cols == 0 || slices == 0 {
            Some("tensor has no elements"@)
        } else if cols * packing_of(effective_view(t.source_path@, view), t.dtype@) > usize::MAX {
            Some("the tensor is too large"@)
        } else {
            None
        },
    }
}

/// What a sample of a tensor shows.
pub open spec fn is_plan(
    p: Plan,
    t: TensorInfo,
    max_rows: usize,
    max_cols: usize,
    slice: usize,
    view: ViewDtype,
    mode: SampleMode,
) -> bool {
    let v = effective_view(t.source_path@, view);
    let packing = packing_of(v, t.dtype@);
    let (rows, cols, slices) = matrix_of(t.shape@)->0;
    &&& p.total_rows == rows
    &&& p.total_cols == cols * packing
    &&& p.slices == slices
    &&& p.slice == if slice < slices {
        slice as int
    } else {
        slices - 1
    }
    &&& p.view == v
    &&& p.overridable == reinterpretable(t.source_path@)
    &&& p.packing == packing
    &&& p.rows@ == picked(mode, true, rows as int, at_least_one(max_rows))
    &&& p.cols@ == picked(mode, false, cols * packing, at_least_one(max_cols))
}

/// Choose the elements of a tensor of up to three dimensions that are shown in at most
/// `max_rows` rows and `max_cols` columns. Of a tensor of three dimensions the slice
/// `slice` of the first is shown, or the last where there are not so many. A packed view
/// shows every value in a container, which widens the last dimension.
pub fn plan_sample(
    t: &TensorInfo,
    max_rows: usize,
    max_cols: usize,
    slice: usize,
    view: ViewDtype,
    mode: SampleMode,
) -> (r: Result<Plan, String>)
    ensures
        match r {
            Ok(p) => plan_fault(*t, view) is None && is_plan(
                p,
                *t,
                max_rows,
                max_cols,
                slice,
                view,
                mode,
            ),
            Err(e) => plan_fault(*t, view) == Some(e@),
        },
{
    let overridable = can_reinterpret(t.source_path.as_str());
    let view = if overridable {
        view
    } else {
        ViewDtype::Stored
    };
    let packing: usize = match item_size(t.dtype.as_str()) {
        Some(b) => view.packing(b),
        None => 1,
    };
    let (total_rows, stored_cols, slices) = match matrix_dims(&t.shape) {
        Some(d) => d,
        None => {
            return Err(
                "data preview supports 1D, 2D and 3D tensors only (this one is ".to_owned().concat(
                    decimal_string(t.shape.len() as u128).as_str(),
                ).concat("D)"),
            );
        },
    };
    if total_rows == 0 || stored_cols == 0 || slices == 0 {
        return Err("tensor has no elements".to_owned());
    }
    proof {
        let c = stored_cols as int;
        let p = packing as int;
        assert(0 < c * p) by (nonlinear_arith)
            requires
                c > 0,
                p >= 1,
        ;
    }
    let total_cols: usize = match stored_cols.checked_mul(packing) {
        Some(n) => n,
        None => {
            return Err("the tensor is too large".to_owned());
        },
    };
    let slice: usize = if slice < slices {
        slice
    } else {
        slices - 1
    };
    let rows = pick(
        mode,
        true,
        total_rows,
        if max_rows > 1 {
            max_rows
        } else {
            1
        },
    );
    let cols = pick(
        mode,
        false,
        total_cols,
        if max_cols > 1 {
            max_cols
        } else {
            1
        },
    );
    Ok(Plan { rows, cols, total_rows, total_cols, slices, slice, view, overridable, packing })
}

/// The dimensions of a shape of up to three multiply to its product.
proof fn lemma_matrix(shape: Seq<usize>)
    requires
        matrix_of(shape) is Some,
    ensures
        ({
            let (rows, cols, slices) = matrix_of(shape)->0;
            product(shape) == slices * (rows * cols)
        }),
{
    reveal_with_fuel(product, 4);
    let (rows, cols, slices) = matrix_of(shape)->0;
    let a = slices as int;
    let b = rows as int;
    let c = cols as int;
    assert(a * (b * c) == (a * b) * c) by (nonlinear_arith);
    let s1 = shape.drop_last();
    let s2 = s1.drop_last();
    let s3 = s2.drop_last();
    assert(product(shape) == product(s1) * shape.last() as nat);
    if shape.len() == 1 {
        assert(product(s1) == 1);
        assert(1 * (1 * c) == c);
    } else if shape.len() == 2 {
        assert(product(s2) == 1);
        assert(s1.last() == shape[0]);
        assert(product(s1) == 1 * shape[0] as nat);
        assert(product(s1) == b);
        assert(1 * (b * c) == b * c);
    } else {
        assert(product(s3) == 1);
        assert(s2.last() == shape[0]);
        assert(s1.last() == shape[1]);
        assert(product(s2) == 1 * shape[0] as nat);
        assert(product(s2) == a);
        assert(product(s1) == product(s2) * shape[1] as nat);
        assert(product(s1) == a * b);
    }
}

/// A shape's volume is the product of its dimensions.
proof fn lemma_whole_volume(shape: Seq<usize>)
    ensures
        volume_of(whole(shape)) == product(shape),
    decreases shape.len(),
{
    if shape.len() > 0 {
        lemma_whole_volume(shape.drop_last());
        assert(whole(shape).drop_last() =~= whole(shape.drop_last()));
    }
}

/// The logical element `flat` of stored bytes; unknown where the bytes end before it.
pub open spec fn element_at(
    blob: Seq<u8>,
    view: ViewDtype,
    dt: Seq<char>,
    item: int,
    packing: int,
    flat: int,
) -> Number {
    let at = (flat / packing) * item;
    if at + item <= blob.len() {
        view_value(view, dt, blob.subrange(at, at + item), flat % packing)
    } else {
        Number::Unknown
    }
}

/// The flat index of a cell of the chosen slice.
pub open spec fn flat_index(p: Plan, r: int, c: int) -> int {
    p.slice * (p.total_rows * p.total_cols) + r * p.total_cols + c
}

/// The flat index of a cell of the chosen slice, where it can be counted.
fn cell_index(p: &Plan, r: usize, c: usize) -> (x: Option<usize>)
    requires
        p.total_cols > 0,
    ensures
        match x {
            Some(n) => n == flat_index(*p, r as int, c as int),
            None => flat_index(*p, r as int, c as int) > usize::MAX,
        },
{
    proof {
        lemma_flat_index(*p, r as int, c as int);
    }
    let skipped: usize = match p.slice.checked_mul(p.total_rows) {
        Some(n) => n,
        None => {
            return None;
        },
    };
    let row: usize = match skipped.checked_add(r) {
        Some(n) => n,
        None => {
            return None;
        },
    };
    match row.checked_mul(p.total_cols) {
        Some(base) => base.checked_add(c),
        None => None,
    }
}

/// A cell's flat index, by the number of its row over all slices.
proof fn lemma_flat_index(p: Plan, r: int, c: int)
    requires
        p.total_cols > 0,
        r >= 0,
        c >= 0,
    ensures
        flat_index(p, r, c) == (p.slice * p.total_rows + r) * p.total_cols + c,
        0 <= p.slice * p.total_rows,
        p.slice * p.total_rows + r <= (p.slice * p.total_rows + r) * p.total_cols,
{
    let (s, m, n) = (p.slice as int, p.total_rows as int, p.total_cols as int);
    assert(s * (m * n) + r * n == (s * m + r) * n) by (nonlinear_arith);
    assert(0 <= s * m) by (nonlinear_arith)
        requires
            s >= 0,
            m >= 0,
    ;
    let q = s * m + r;
    assert(q <= q * n) by (nonlinear_arith)
        requires
            q >= 0,
            n >= 1,
    ;
}

/// The flat index of a row's first cell.
fn row_base(p: &Plan, r: usize) -> (base: usize)
    requires
        p.total_cols > 0,
        flat_index(*p, r as int, 0) <= usize::MAX,
    ensures
        base == flat_index(*p, r as int, 0),
{
    proof {
        lemma_flat_index(*p, r as int, 0);
    }
    (p.slice * p.total_rows + r) * p.total_cols
}

/// The containers that hold a row's shown cells: the first and the last.
pub fn row_containers(p: &Plan, r: usize) -> (s: (usize, usize))
    requires
        p.cols.len() > 0,
        p.packing > 0,
        p.total_cols > 0,
        flat_index(*p, r as int, p.cols@[0] as int) <= usize::MAX,
        flat_index(*p, r as int, p.cols@.last() as int) <= usize::MAX,
    ensures
        s.0 == flat_index(*p, r as int, p.cols@[0] as int) / p.packing as int,
        s.1 == flat_index(*p, r as int, p.cols@.last() as int) / p.packing as int,
{
    let base = row_base(p, r);
    let first = p.cols[0];
    let last = p.cols[p.cols.len() - 1];
    ((base + first) / p.packing, (base + last) / p.packing)
}

/// The shown cells of one row, from a buffer of the containers from `first` on.
pub fn decode_row(
    buf: &[u8],
    p: &Plan,
    dtype: &str,
    item: usize,
    r: usize,
    first: usize,
) -> (out: Vec<Number>)
    requires
        1 <= item <= 8,
        p.packing == p.view.values_per(item as nat),
        view_fits(p.view, dtype@, item as nat),
        p.total_cols > 0,
        forall|i: int|
            0 <= i < p.cols.len() ==> flat_index(*p, r as int, #[trigger] p.cols@[i] as int)
                <= usize::MAX,
        forall|i: int|
            0 <= i < p.cols.len() ==> first <= flat_index(
                *p,
                r as int,
                #[trigger] p.cols@[i] as int,
            ) / p.packing as int,
        forall|i: int|
            0 <= i < p.cols.len() ==> (flat_index(*p, r as int, #[trigger] p.cols@[i] as int)
                / p.packing as int - first + 1) * item <= usize::MAX,
    ensures
        out.len() == p.cols.len(),
        forall|j: int|
            0 <= j < out.len() ==> #[trigger] out@[j] == ({
                let flat = flat_index(*p, r as int, p.cols@[j] as int);
                let at = (flat / p.packing as int - first) * item;
                if at + item <= buf.len() {
                    view_value(p.view, dtype@, buf@.subrange(at, at + item), flat % p.packing as int)
                } else {
                    Number::Unknown
                }
            }),
{
    let mut out: Vec<Number> = Vec::new();
    if p.cols.len() == 0 {
        return out;
    }
    proof {
        assert(flat_index(*p, r as int, p.cols@[0] as int) <= usize::MAX);
    }
    let base = row_base(p, r);
    let mut j: usize = 0;
    while j < p.cols.len()
        invariant
            j <= p.cols.len(),
            out.len() == j,
            base == flat_index(*p, r as int, 0),
            1 <= item <= 8,
            p.packing == p.view.values_per(item as nat),
            view_fits(p.view, dtype@, item as nat),
            forall|i: int|
                0 <= i < p.cols.len() ==> flat_index(*p, r as int, #[trigger] p.cols@[i] as int)
                    <= usize::MAX,
            forall|i: int|
                0 <= i < p.cols.len() ==> first <= flat_index(
                    *p,
                    r as int,
                    #[trigger] p.cols@[i] as int,
                ) / p.packing as int,
            forall|i: int|
                0 <= i < p.cols.len() ==> (flat_index(*p, r as int, #[trigger] p.cols@[i] as int)
                    / p.packing as int - first + 1) * item <= usize::MAX,
            forall|i: int|
                0 <= i < out.len() ==> #[trigger] out@[i] == ({
                    let flat = flat_index(*p, r as int, p.cols@[i] as int);
                    let at = (flat / p.packing as int - first) * item;
                    if at + item <= buf.len() {
                        view_value(
                            p.view,
                            dtype@,
                            buf@.subrange(at, at + item),
                            flat % p.packing as int,
                        )
                    } else {
                        Number::Unknown
                    }
                }),
        decreases p.cols.len() - j,
    {
        proof {
            assert(flat_index(*p, r as int, p.cols@[j as int] as int) <= usize::MAX);
        }
        let flat: usize = base + p.cols[j];
        let container: usize = flat / p.packing;
        proof {
            assert(flat == flat_index(*p, r as int, p.cols@[j as int] as int));
            let x = container as int - first as int;
            let i = item as int;
            assert(0 <= x * i && x * i + i == (x + 1) * i) by (nonlinear_arith)
                requires
                    0 <= x,
                    i > 0,
            ;
        }
        let at: usize = (container - first) * item;
        if at + item <= buf.len() {
            let cont = vstd::slice::slice_subrange(buf, at, at + item);
            out.push(decode_view(p.view, dtype, cont, flat % p.packing));
        } else {
            out.push(Number::Unknown);
        }
        j = j + 1;
    }
    out
}

/// A grid of tensor values and the indices they came from.
#[derive(Debug)]
pub struct Sample {
    pub plan: Plan,
    /// `values[i][j]` is the value in row `rows[i]` and column `cols[j]`.
    pub values: Vec<Vec<Number>>,
}

/// The values of a sample are those of its cells.
pub open spec fn shows_cells(s: Sample, blob: Seq<u8>, dt: Seq<char>, item: int) -> bool {
    &&& s.values.len() == s.plan.rows.len()
    &&& forall|i: int|
        0 <= i < s.values.len() ==> (#[trigger] s.values@[i]).len() == s.plan.cols.len()
    &&& forall|i: int, j: int|
        0 <= i < s.values.len() && 0 <= j < s.plan.cols.len() ==> #[trigger] s.values@[i]@[j]
            == element_at(
            blob,
            s.plan.view,
            dt,
            item,
            s.plan.packing as int,
            flat_index(s.plan, s.plan.rows@[i] as int, s.plan.cols@[j] as int),
        )
}

/// How a tensor's stored bytes are reached.
#[derive(Clone, Copy, Debug, PartialEq, Eq, Structural)]
pub enum Reader {
    /// The bytes `start..end` of a safetensors file's data, in containers of `item` bytes.
    Safetensors { start: u64, end: u64, item: usize },
    /// A dataset of an HDF5 file.
    Hdf5 { item: usize },
}

/// How a tensor's stored bytes are reached, or why they cannot be.
pub open spec fn reader_of(t: TensorInfo) -> Result<Reader, Seq<char>> {
    let ext = path_extension(t.source_path@);
    let unsupported = "unsupported dtype: "@ + t.dtype@;
    if ext == Some("safetensors"@) {
        match t.layout {
            Layout::ByteRange { start, end } => match size_of_item(t.dtype@) {
                Some(item) => Ok(Reader::Safetensors { start, end, item }),
                None => Err(unsupported),
            },
            _ => Err("tensor data location is unknown"@),
        }
    } else if ext == Some("h5"@) || ext == Some("hdf5"@) {
        match size_of_item(t.dtype@) {
            Some(item) => Ok(Reader::Hdf5 { item }),
            None => Err(unsupported),
        }
    } else {
        Err("reading tensor data is not supported for this format"@)
    }
}

/// Why a tensor's stored bytes cannot be read where they are reached, if so: HDF5 has no
/// type for `BF16`.
pub open spec fn read_fault(t: TensorInfo) -> Option<Seq<char>> {
    if reader_of(t) matches Ok(Reader::Hdf5 { .. }) && t.dtype@ == "BF16"@ {
        Some("unsupported dtype: "@ + t.dtype@)
    } else {
        None
    }
}

/// Whether a tensor's stored bytes can be read through its reader.
pub fn check_readable(t: &TensorInfo, reader: Reader) -> (r: Result<(), String>)
    requires
        reader_of(*t) == Ok::<Reader, Seq<char>>(reader),
    ensures
        match r {
            Ok(_) => read_fault(*t) is None,
            Err(e) => read_fault(*t) == Some(e@),
        },
{
    match reader {
        Reader::Hdf5 { .. } => if same(t.dtype.as_str(), "BF16") {
            Err("unsupported dtype: ".to_owned().concat(t.dtype.as_str()))
        } else {
            Ok(())
        },
        _ => Ok(()),
    }
}

/// Choose how a tensor's stored bytes are reached, by its file's extension.
pub fn open_reader(t: &TensorInfo) -> (r: Result<Reader, String>)
    ensures
        match r {
            Ok(x) => reader_of(*t) == Ok::<Reader, Seq<char>>(x),
            Err(e) => reader_of(*t) == Err::<Reader, Seq<char>>(e@),
        },
{
    let item = item_size(t.dtype.as_str());
    let ext = match extension(t.source_path.as_str()) {
        Some(e) => e,
        None => {
            return Err("reading tensor data is not supported for this format".to_owned());
        },
    };
    if same(ext.as_str(), "safetensors") {
        match t.layout {
            Layout::ByteRange { start, end } => match item {
                Some(item) => Ok(Reader::Safetensors { start, end, item }),
                None => Err("unsupported dtype: ".to_owned().concat(t.dtype.as_str())),
            },
            _ => Err("tensor data location is unknown".to_owned()),
        }
    } else if same(ext.as_str(), "h5") || same(ext.as_str(), "hdf5") {
        match item {
            Some(item) => Ok(Reader::Hdf5 { item }),
            None => Err("unsupported dtype: ".to_owned().concat(t.dtype.as_str())),
        }
    } else {
        Err("reading tensor data is not supported for this format".to_owned())
    }
}

/// Where a tensor's bytes lie in a safetensors file, given the length of its header and
/// of the file.
pub fn data_range(header_len: u64, start: u64, end: u64, file_len: usize) -> (r: Result<
    (usize, usize),
    String,
>)
    requires
        start <= end,
    ensures
        8 + header_len + end <= file_len ==> r == Ok::<(usize, usize), String>(
            ((8 + header_len + start) as usize, (8 + header_len + end) as usize),
        ),
        8 + header_len + end > file_len ==> r is Err && r->Err_0@
            == "tensor data range is out of bounds"@,
{
    let a: u128 = 8u128 + header_len as u128 + start as u128;
    let b: u128 = 8u128 + header_len as u128 + end as u128;
    if b > file_len as u128 {
        Err("tensor data range is out of bounds".to_owned())
    } else {
        Ok((a as usize, b as usize))
    }
}

/// The container of a cell in row `q` of rows of `n` containers of `p` values.
proof fn lemma_container(q: int, n: int, p: int, c: int)
    requires
        q >= 0,
        n > 0,
        p > 0,
        0 <= c < n * p,
    ensures
        (q * (n * p) + c) / p == q * n + c / p,
        0 <= c / p < n,
        (q * n + c / p) / n == q,
{
    let y = c / p;
    assert(0 <= y < n) by (nonlinear_arith)
        requires
            0 <= c < n * p,
            p > 0,
            y == c / p,
    ;
    let z = c % p;
    assert(c == y * p + z && 0 <= z < p) by (nonlinear_arith)
        requires
            p > 0,
            y == c / p,
            z == c % p,
    ;
    let x = q * n + y;
    assert(q * (n * p) + c == x * p + z) by (nonlinear_arith)
        requires
            c == y * p + z,
            x == q * n + y,
    ;
    assert((x * p + z) / p == x) by (nonlinear_arith)
        requires
            p > 0,
            0 <= z < p,
    ;
    assert((q * n + y) / n == q) by (nonlinear_arith)
        requires
            n > 0,
            0 <= y < n,
    ;
}

/// A cell's flat index and container, by the number of its row over all slices.
proof fn lemma_cell(p: Plan, n: int, r: int, c: int)
    requires
        n > 0,
        p.packing > 0,
        p.total_cols == n * p.packing,
        0 <= r < p.total_rows,
        0 <= c < p.total_cols,
        p.slice < p.slices,
    ensures
        ({
            let q = p.slice * p.total_rows + r;
            let x = flat_index(p, r, c) / p.packing as int;
            &&& 0 <= q < p.slices * p.total_rows
            &&& flat_index(p, r, c) >= 0
            &&& x == q * n + c / p.packing as int
            &&& 0 <= c / p.packing as int
            &&& c / (p.packing as int) < n
            &&& x / n == q
            &&& 0 <= x < p.slices * (p.total_rows * n)
        }),
{
    let s = p.slice as int;
    let m = p.total_rows as int;
    let k = p.slices as int;
    let tc = p.total_cols as int;
    let q = s * m + r;
    assert(s * (m * tc) + r * tc + c == q * tc + c) by (nonlinear_arith)
        requires
            q == s * m + r,
    ;
    assert(0 <= q < k * m) by (nonlinear_arith)
        requires
            0 <= s < k,
            0 <= r < m,
            q == s * m + r,
    ;
    assert(q * tc >= 0) by (nonlinear_arith)
        requires
            q >= 0,
            tc >= 0,
    ;
    lemma_container(q, n, p.packing as int, c);
    let y = c / p.packing as int;
    assert(0 <= q * n + y < k * (m * n)) by (nonlinear_arith)
        requires
            0 <= q < k * m,
            0 <= y < n,
    ;
}

/// The shown cells of a row of a tensor whose stored bytes are at hand.
fn sample_row(t: &TensorInfo, blob: &[u8], p: &Plan, item: usize, r: usize) -> (out: Vec<Number>)
    requires
        matrix_of(t.shape@) is Some,
        no_zero(t.shape@),
        p.packing == p.view.values_per(item as nat),
        1 <= item <= 8,
        view_fits(p.view, t.dtype@, item as nat),
        p.total_rows == (matrix_of(t.shape@)->0).0,
        p.total_cols == (matrix_of(t.shape@)->0).1 * p.packing,
        p.slices == (matrix_of(t.shape@)->0).2,
        p.slice < p.slices,
        r < p.total_rows,
        p.cols.len() > 0,
        ascends(p.cols@),
        forall|i: int| 0 <= i < p.cols.len() ==> #[trigger] p.cols@[i] < p.total_cols,
        flat_index(*p, r as int, p.cols@.last() as int) <= usize::MAX,
        (flat_index(*p, r as int, p.cols@.last() as int) / p.packing as int + 1) * item
            <= blob.len(),
    ensures
        out.len() == p.cols.len(),
        forall|j: int|
            0 <= j < out.len() ==> #[trigger] out@[j] == element_at(
                blob@,
                p.view,
                t.dtype@,
                item as int,
                p.packing as int,
                flat_index(*p, r as int, p.cols@[j] as int),
            ),
{
    let ghost (m, n, k) = matrix_of(t.shape@)->0;
    let ghost it = item as int;
    proof {
        lemma_matrix(t.shape@);
        lemma_whole_volume(t.shape@);
        assert(n > 0) by {
            if t.shape@.len() == 1 {
                assert(t.shape@[0] > 0);
            } else if t.shape@.len() == 2 {
                assert(t.shape@[1] > 0);
            } else {
                assert(t.shape@[2] > 0);
            }
        }
        assert(p.cols@[0] < p.total_cols);
        assert(p.cols@[p.cols.len() - 1] < p.total_cols);
        lemma_cell(*p, n as int, r as int, p.cols@[0] as int);
        lemma_cell(*p, n as int, r as int, p.cols@.last() as int);
        assert(p.cols@[0] <= p.cols@.last()) by {
            if p.cols.len() > 1 {
                assert(p.cols@[0] < p.cols@[p.cols.len() - 1]);
            }
        }
    }
    let (first, last) = row_containers(p, r);
    let ghost span = span_region(t.shape@, first as int, last as int);
    proof {
        let a = p.cols@[0] as int;
        let b = p.cols@.last() as int;
        let pk = p.packing as int;
        vstd::arithmetic::div_mod::lemma_div_is_ordered(a, b, pk);
        assert(t.shape@.last() == n);
        law_span_is_contiguous(t.shape@, first as int, last as int, 0);
        assert forall|k: int| 0 <= k < volume_of(span) implies (#[trigger] source_index(
            whole(t.shape@),
            span,
            k,
        ) + 1) * item <= blob.len() by {
            law_span_is_contiguous(t.shape@, first as int, last as int, k);
            let (x, y) = (first + k, last as int);
            assert((x + 1) * it <= (y + 1) * it) by (nonlinear_arith)
                requires
                    x <= y,
                    it > 0,
            ;
        }
    }
    let region = region_for_span(&t.shape, first, last);
    let full = whole_region(&t.shape);
    let buf = gather_region(blob, &full, &region, item);
    proof {
        assert forall|i: int| 0 <= i < p.cols.len() implies ({
            let flat = flat_index(*p, r as int, #[trigger] p.cols@[i] as int);
            let x = flat / p.packing as int;
            flat <= usize::MAX && first <= x && (x - first + 1) * item <= usize::MAX
        }) by {
            let x = flat_index(*p, r as int, p.cols@[i] as int) / p.packing as int;
            lemma_cell(*p, n as int, r as int, p.cols@[i] as int);
            if i > 0 {
                assert(p.cols@[0] < p.cols@[i]);
            }
            if i < p.cols.len() - 1 {
                assert(p.cols@[i] < p.cols@[p.cols.len() - 1]);
            }
            vstd::arithmetic::div_mod::lemma_div_is_ordered(
                p.cols@[0] as int,
                p.cols@[i] as int,
                p.packing as int,
            );
            vstd::arithmetic::div_mod::lemma_div_is_ordered(
                p.cols@[i] as int,
                p.cols@.last() as int,
                p.packing as int,
            );
            let (y, f) = (last as int, first as int);
            assert((x - f + 1) * it <= (y + 1) * it) by (nonlinear_arith)
                requires
                    x - f <= y,
                    it > 0,
            ;
        }
    }
    let out = decode_row(buf.as_slice(), p, t.dtype.as_str(), item, r, first);
    proof {
        assert forall|j: int| 0 <= j < out.len() implies #[trigger] out@[j] == element_at(
            blob@,
            p.view,
            t.dtype@,
            item as int,
            p.packing as int,
            flat_index(*p, r as int, p.cols@[j] as int),
        ) by {
            let c = p.cols@[j] as int;
            let flat = flat_index(*p, r as int, c);
            let x = flat / p.packing as int;
            lemma_cell(*p, n as int, r as int, c);
            if j < p.cols.len() - 1 {
                assert(p.cols@[j] < p.cols@[p.cols.len() - 1]);
            }
            if j > 0 {
                assert(p.cols@[0] < p.cols@[j]);
            }
            vstd::arithmetic::div_mod::lemma_div_is_ordered(
                c,
                p.cols@.last() as int,
                p.packing as int,
            );
            vstd::arithmetic::div_mod::lemma_div_is_ordered(
                p.cols@[0] as int,
                c,
                p.packing as int,
            );
            let d = x - first;
            law_span_is_contiguous(t.shape@, first as int, last as int, d);
            let len = last - first + 1;
            assert(0 <= d * it && d * it + it <= len * it) by (nonlinear_arith)
                requires
                    0 <= d < len,
                    it > 0,
            ;
            let y = last as int;
            assert(0 <= x * it && x * it + it <= (y + 1) * it) by (nonlinear_arith)
                requires
                    0 <= x <= y,
                    it > 0,
            ;
            let got = buf@.subrange(d * it, d * it + it);
            let stored = blob@.subrange(x * it, x * it + it);
            assert forall|b: int| 0 <= b < it implies #[trigger] got[b] == stored[b] by {
                assert(buf@[d * item + b] == blob@[source_index(full@, region@, d) * item + b]);
            }
            assert(got =~= stored);
        }
    }
    out
}

/// The region that a whole shape makes.
fn whole_region(shape: &Vec<usize>) -> (r: Vec<Span>)
    ensures
        r@ == whole(shape@),
{
    let mut r: Vec<Span> = Vec::new();
    let mut i: usize = 0;
    while i < shape.len()
        invariant
            i <= shape.len(),
            r@ =~= whole(shape@).take(i as int),
        decreases shape.len() - i,
    {
        r.push(Span { start: 0, end: shape[i] });
        i = i + 1;
    }
    proof {
        assert(whole(shape@).take(i as int) =~= whole(shape@));
    }
    r
}

/// Whether the containers of a dtype can be decoded under a view.
pub fn fits_view(view: ViewDtype, dtype: &str, item: usize) -> (b: bool)
    ensures
        b == view_fits(view, dtype@, item as nat),
{
    let size = match view {
        ViewDtype::Stored => item_size(dtype),
        ViewDtype::As(other) => item_size(other),
        _ => None,
    };
    match size {
        Some(n) => n == item,
        None => true,
    }
}

/// A row's cells lie no further on than those of a later row.
proof fn lemma_later_row(p: Plan, item: int, r: int, last: int)
    requires
        p.packing > 0,
        item > 0,
        r <= last,
    ensures
        ({
            let c = p.cols@.last() as int;
            let (a, b) = (flat_index(p, r, c), flat_index(p, last, c));
            a <= b && (a / p.packing as int + 1) * item <= (b / p.packing as int + 1) * item
        }),
{
    let c = p.cols@.last() as int;
    let (a, b) = (flat_index(p, r, c), flat_index(p, last, c));
    let n = p.total_cols as int;
    assert(r * n <= last * n) by (nonlinear_arith)
        requires
            r <= last,
            n >= 0,
    ;
    vstd::arithmetic::div_mod::lemma_div_is_ordered(a, b, p.packing as int);
    let (x, y) = (a / p.packing as int, b / p.packing as int);
    assert((x + 1) * item <= (y + 1) * item) by (nonlinear_arith)
        requires
            x <= y,
            item > 0,
    ;
}

/// The flat index of the last cell that a sample shows, if it shows any.
pub open spec fn last_shown(
    t: TensorInfo,
    max_rows: usize,
    max_cols: usize,
    slice: usize,
    view: ViewDtype,
    mode: SampleMode,
) -> Option<int> {
    let (rows, stored, slices) = matrix_of(t.shape@)->0;
    let cols = stored * packing_of(effective_view(t.source_path@, view), t.dtype@);
    let rs = picked(mode, true, rows as int, at_least_one(max_rows));
    let cs = picked(mode, false, cols, at_least_one(max_cols));
    let s = if slice < slices {
        slice as int
    } else {
        slices - 1
    };
    if rs.len() == 0 || cs.len() == 0 {
        None
    } else {
        Some(s * (rows * cols) + rs.last() * cols + cs.last())
    }
}

/// Why the cells up to a flat index cannot be decoded from so many stored bytes, if so:
/// the dtype cannot be read, the index cannot be counted, the bytes end too soon, or the
/// view is of another width.
pub open spec fn data_fault(t: TensorInfo, view: ViewDtype, last: Option<int>, len: nat) -> Option<
    Seq<char>,
> {
    let item = size_of_item(t.dtype@)->0 as nat;
    let v = effective_view(t.source_path@, view);
    if read_fault(t) is Some {
        read_fault(t)
    } else if last is Some && last->0 > usize::MAX {
        Some("the tensor is too large"@)
    } else if last is Some && (last->0 / packing_of(v, t.dtype@) as int + 1) * item > len {
        Some("tensor data range is out of bounds"@)
    } else if !view_fits(v, t.dtype@, item) {
        Some(t.dtype@ + " cannot be read in this view"@)
    } else {
        None
    }
}

/// Whether the stored bytes hold every cell that a plan shows.
fn check_reach(p: &Plan, len: usize, item: usize) -> (r: Result<(), String>)
    requires
        p.packing > 0,
        p.total_cols > 0,
    ensures
        ({
            let flat = flat_index(*p, p.rows@.last() as int, p.cols@.last() as int);
            let shown = p.rows.len() > 0 && p.cols.len() > 0;
            match r {
                Ok(_) => shown ==> flat <= usize::MAX && (flat / p.packing as int + 1) * item <= len,
                Err(e) => shown && if flat > usize::MAX {
                    e@ == "the tensor is too large"@
                } else {
                    (flat / p.packing as int + 1) * item > len && e@
                        == "tensor data range is out of bounds"@
                },
            }
        }),
{
    if p.rows.len() == 0 || p.cols.len() == 0 {
        return Ok(());
    }
    let flat: usize = match cell_index(p, p.rows[p.rows.len() - 1], p.cols[p.cols.len() - 1]) {
        Some(n) => n,
        None => {
            return Err("the tensor is too large".to_owned());
        },
    };
    let containers: u128 = (flat / p.packing) as u128 + 1;
    proof {
        let (x, i) = (containers as int, item as int);
        assert(0 <= x * i <= 0x1_0000_0000_0000_0000 * 0xffff_ffff_ffff_ffff) by (nonlinear_arith)
            requires
                0 <= x <= 0x1_0000_0000_0000_0000,
                0 <= i <= 0xffff_ffff_ffff_ffff,
        ;
    }
    if containers * item as u128 > len as u128 {
        Err("tensor data range is out of bounds".to_owned())
    } else {
        Ok(())
    }
}

/// Sample a tensor of up to three dimensions whose stored bytes are at hand: the values
/// of the cells that `plan_sample` chooses, at most `max_rows` by `max_cols` of them. Of
/// the bytes only those of the shown cells are needed.
pub fn sample_tensor(
    t: &TensorInfo,
    blob: &[u8],
    max_rows: usize,
    max_cols: usize,
    slice: usize,
    view: ViewDtype,
    mode: SampleMode,
) -> (r: Result<Sample, String>)
    ensures
        match plan_fault(*t, view) {
            Some(e) => r is Err && r->Err_0@ == e,
            None => match reader_of(*t) {
                Err(e) => r is Err && r->Err_0@ == e,
                Ok(_) => match data_fault(
                    *t,
                    view,
                    last_shown(*t, max_rows, max_cols, slice, view, mode),
                    blob@.len(),
                ) {
                    Some(e) => r is Err && r->Err_0@ == e,
                    None => r is Ok && is_plan(
                        r->Ok_0.plan,
                        *t,
                        max_rows,
                        max_cols,
                        slice,
                        view,
                        mode,
                    ) && shows_cells(r->Ok_0, blob@, t.dtype@, size_of_item(t.dtype@)->0 as int),
                },
            },
        },
        r matches Ok(s) ==> s.plan.rows.len() <= at_least_one(max_rows) && s.plan.cols.len()
            <= at_least_one(max_cols),
{
    let p = match plan_sample(t, max_rows, max_cols, slice, view, mode) {
        Ok(p) => p,
        Err(e) => {
            return Err(e);
        },
    };
    let reader = match open_reader(t) {
        Ok(reader) => reader,
        Err(e) => {
            return Err(e);
        },
    };
    let item: usize = match item_size(t.dtype.as_str()) {
        Some(b) => b,
        None => {
            proof {
                assert(false);
            }
            1
        },
    };
    proof {
        assert forall|d: int| 0 <= d < t.shape@.len() implies #[trigger] t.shape@[d] > 0 by {}
        let (n, pk) = ((matrix_of(t.shape@)->0).1 as int, p.packing as int);
        assert(n * pk > 0) by (nonlinear_arith)
            requires
                n > 0,
                pk > 0,
        ;
    }
    match check_readable(t, reader) {
        Ok(_) => {},
        Err(e) => {
            return Err(e);
        },
    }
    match check_reach(&p, blob.len(), item) {
        Ok(_) => {},
        Err(e) => {
            return Err(e);
        },
    }
    if !fits_view(p.view, t.dtype.as_str(), item) {
        return Err(t.dtype.clone().concat(" cannot be read in this view"));
    }
    proof {
        let (m, n, k) = matrix_of(t.shape@)->0;
        law_picks_are_bounded(
            mode,
            true,
            p.total_rows,
            if max_rows > 1 {
                max_rows
            } else {
                1
            },
        );
        let pk = p.packing as int;
        let nn = n as int;
        assert(nn * pk > 0) by (nonlinear_arith)
            requires
                nn > 0,
                pk > 0,
        ;
        law_picks_are_bounded(
            mode,
            false,
            p.total_cols,
            if max_cols > 1 {
                max_cols
            } else {
                1
            },
        );
        if p.cols.len() > 0 {
            assert forall|j: int| 0 <= j < p.rows.len() implies ({
                let flat = flat_index(p, #[trigger] p.rows@[j] as int, p.cols@.last() as int);
                flat <= usize::MAX && (flat / p.packing as int + 1) * item <= blob.len()
            }) by {
                if j < p.rows.len() - 1 {
                    assert(p.rows@[j] < p.rows@[p.rows.len() - 1]);
                }
                lemma_later_row(p, item as int, p.rows@[j] as int, p.rows@.last() as int);
            }
        }
    }
    let mut values: Vec<Vec<Number>> = Vec::new();
    let mut i: usize = 0;
    while i < p.rows.len()
        invariant
            i <= p.rows.len(),
            p.packing > 0,
            values.len() == i,
            matrix_of(t.shape@) is Some,
            no_zero(t.shape@),
            p.packing == p.view.values_per(item as nat),
            1 <= item <= 8,
            view_fits(p.view, t.dtype@, item as nat),
            p.total_rows == (matrix_of(t.shape@)->0).0,
            p.total_cols == (matrix_of(t.shape@)->0).1 * p.packing,
            p.slices == (matrix_of(t.shape@)->0).2,
            p.slice < p.slices,
            ascends(p.cols@),
            forall|j: int| 0 <= j < p.cols.len() ==> #[trigger] p.cols@[j] < p.total_cols,
            forall|j: int| 0 <= j < p.rows.len() ==> #[trigger] p.rows@[j] < p.total_rows,
            p.cols.len() > 0 ==> forall|j: int|
                0 <= j < p.rows.len() ==> flat_index(
                    p,
                    #[trigger] p.rows@[j] as int,
                    p.cols@.last() as int,
                ) <= usize::MAX,
            p.cols.len() > 0 ==> forall|j: int|
                0 <= j < p.rows.len() ==> (flat_index(
                    p,
                    #[trigger] p.rows@[j] as int,
                    p.cols@.last() as int,
                ) / p.packing as int + 1) * item <= blob.len(),
            forall|a: int| 0 <= a < i ==> (#[trigger] values@[a]).len() == p.cols.len(),
            forall|a: int, b: int|
                0 <= a < i && 0 <= b < p.cols.len() ==> #[trigger] values@[a]@[b] == element_at(
                    blob@,
                    p.view,
                    t.dtype@,
                    item as int,
                    p.packing as int,
                    flat_index(p, p.rows@[a] as int, p.cols@[b] as int),
                ),
        decreases p.rows.len() - i,
    {
        let row = if p.cols.len() == 0 {
            Vec::new()
        } else {
            sample_row(t, blob, &p, item, p.rows[i])
        };
        values.push(row);
        i = i + 1;
    }
    Ok(Sample { plan: p, values })
}

// ---------------------------------------------------------------------------
// Scanning

/// The largest block that is read at once in a scan, in elements.
pub const STATS_BLOCK_ELEMS: usize = 16_777_216;

/// How many indices of the first dimension make a block of a scan.
pub open spec fn block_rows(shape: Seq<usize>) -> int
    recommends
        shape.len() > 0,
{
    let inner = product(shape.skip(1)) as int;
    let rows = STATS_BLOCK_ELEMS as int / (if inner > 1 {
        inner
    } else {
        1
    });
    if rows > 1 {
        rows
    } else {
        1
    }
}

/// The region of the indices `from..to` of the first dimension.
pub open spec fn slab(shape: Seq<usize>, from: int, to: int) -> Seq<Span> {
    seq![Span { start: from as usize, end: to as usize }] + whole(shape.skip(1))
}

/// The blocks of a scan from index `from` of the first dimension on.
pub open spec fn slabs(shape: Seq<usize>, from: int) -> Seq<Seq<Span>>
    decreases shape[0] - from,
{
    let step = block_rows(shape);
    if from >= shape[0] {
        Seq::empty()
    } else {
        let to = if from + step < shape[0] {
            from + step
        } else {
            shape[0] as int
        };
        seq![slab(shape, from, to)] + slabs(shape, to)
    }
}

/// The blocks of a scan of a whole tensor.
pub open spec fn scan_blocks(shape: Seq<usize>) -> Seq<Seq<Span>> {
    if shape.len() == 0 {
        seq![Seq::empty()]
    } else {
        slabs(shape, 0)
    }
}

/// The views of regions.
pub open spec fn regions_view(rs: Seq<Vec<Span>>) -> Seq<Seq<Span>> {
    rs.map_values(|r: Vec<Span>| r@)
}

fn inner_count(shape: &Vec<usize>) -> (r: usize)
    requires
        shape.len() > 0,
        product(shape@.skip(1)) <= usize::MAX,
    ensures
        r == product(shape@.skip(1)),
{
    let ghost rest = shape@.skip(1);
    let mut zero = false;
    let mut i: usize = 1;
    while i < shape.len()
        invariant
            1 <= i <= shape.len(),
            rest == shape@.skip(1),
            zero ==> product(rest) == 0,
            !zero ==> forall|j: int| 1 <= j < i ==> #[trigger] shape@[j] > 0,
        decreases shape.len() - i,
    {
        if shape[i] == 0 {
            zero = true;
            proof {
                lemma_product_zero(rest, i - 1);
            }
        }
        i = i + 1;
    }
    if zero {
        return 0;
    }
    let mut r: usize = 1;
    let mut i: usize = 1;
    proof {
        assert(rest.take(0) =~= Seq::empty());
        assert(no_zero(rest)) by {
            assert forall|d: int| 0 <= d < rest.len() implies #[trigger] rest[d] > 0 by {
                assert(rest[d] == shape@[d + 1]);
            }
        }
    }
    while i < shape.len()
        invariant
            1 <= i <= shape.len(),
            rest == shape@.skip(1),
            no_zero(rest),
            product(rest) <= usize::MAX,
            r == product(rest.take(i - 1)),
        decreases shape.len() - i,
    {
        proof {
            assert(rest.take(i as int).drop_last() =~= rest.take(i - 1));
            assert(rest.take(i as int).last() == shape@[i as int]);
            lemma_product_prefix(rest, i as int);
        }
        r = r * shape[i];
        i = i + 1;
    }
    proof {
        assert(rest.take(i - 1) =~= rest);
    }
    r
}

proof fn lemma_product_zero(s: Seq<usize>, i: int)
    requires
        0 <= i < s.len(),
        s[i] == 0,
    ensures
        product(s) == 0,
    decreases s.len(),
{
    let t = s.drop_last();
    if i < s.len() - 1 {
        assert(t[i] == s[i]);
        lemma_product_zero(t, i);
        assert(0 * s.last() == 0) by (nonlinear_arith);
    } else {
        let v = product(t) as int;
        assert(v * 0 == 0) by (nonlinear_arith);
    }
}

proof fn lemma_product_prefix(s: Seq<usize>, n: int)
    requires
        no_zero(s),
        0 <= n <= s.len(),
    ensures
        1 <= product(s.take(n)) <= product(s),
    decreases s.len(),
{
    if s.len() == 0 {
        assert(s.take(n) =~= s);
    } else {
        let t = s.drop_last();
        assert forall|d: int| 0 <= d < t.len() implies #[trigger] t[d] > 0 by {
            assert(t[d] == s[d]);
        }
        let l = s[s.len() - 1] as int;
        lemma_product_prefix(t, t.len() as int);
        assert(t.take(t.len() as int) =~= t);
        let v = product(t) as int;
        assert(v <= v * l && 1 <= v * l) by (nonlinear_arith)
            requires
                v >= 1,
                l >= 1,
        ;
        if n < s.len() {
            lemma_product_prefix(t, n);
            assert(t.take(n) =~= s.take(n));
        } else {
            assert(s.take(n) =~= s);
        }
    }
}

/// The regions in which a scan reads a tensor, in order: slabs of the first dimension,
/// each of a bounded size.
pub fn block_regions(shape: &Vec<usize>) -> (r: Vec<Vec<Span>>)
    requires
        shape.len() > 0 ==> product(shape@.skip(1)) <= usize::MAX,
    ensures
        regions_view(r@) == scan_blocks(shape@),
{
    let mut r: Vec<Vec<Span>> = Vec::new();
    if shape.len() == 0 {
        r.push(Vec::new());
        proof {
            assert(regions_view(r@) =~= scan_blocks(shape@));
        }
        return r;
    }
    let outer = shape[0];
    let inner = inner_count(shape);
    let divisor: usize = if inner > 1 {
        inner
    } else {
        1
    };
    let rows: usize = STATS_BLOCK_ELEMS / divisor;
    let step: usize = if rows > 1 {
        rows
    } else {
        1
    };
    let mut i: usize = 0;
    proof {
        assert(regions_view(r@) + slabs(shape@, 0) =~= slabs(shape@, 0));
    }
    while i < outer
        invariant
            i <= outer,
            shape.len() > 0,
            outer == shape@[0],
            step == block_rows(shape@),
            step >= 1,
            regions_view(r@) + slabs(shape@, i as int) == slabs(shape@, 0),
        decreases outer - i,
    {
        let hi: usize = if step < outer - i {
            i + step
        } else {
            outer
        };
        let mut region: Vec<Span> = Vec::new();
        region.push(Span { start: i, end: hi });
        let mut d: usize = 1;
        while d < shape.len()
            invariant
                1 <= d <= shape.len(),
                region@ =~= slab(shape@, i as int, hi as int).take(d as int),
            decreases shape.len() - d,
        {
            region.push(Span { start: 0, end: shape[d] });
            d = d + 1;
        }
        let ghost before = regions_view(r@);
        proof {
            let s = slab(shape@, i as int, hi as int);
            assert(s.take(d as int) =~= s);
            assert(region@ =~= s);
        }
        r.push(region);
        proof {
            assert(regions_view(r@) =~= before.push(slab(shape@, i as int, hi as int)));
            assert(regions_view(r@) + slabs(shape@, hi as int) =~= before + (seq![
                slab(shape@, i as int, hi as int),
            ] + slabs(shape@, hi as int)));
        }
        i = hi;
    }
    proof {
        assert(regions_view(r@) + slabs(shape@, i as int) =~= regions_view(r@));
    }
    r
}

/// The blocks of a scan follow one another from `from` to the end of the first
/// dimension, without a gap, and none is empty.
pub proof fn law_blocks_cover(shape: Seq<usize>, from: int)
    requires
        shape.len() > 0,
        0 <= from <= shape[0],
    ensures
        forall|i: int|
            0 <= i < slabs(shape, from).len() ==> {
                let b = #[trigger] slabs(shape, from)[i];
                &&& b[0].start < b[0].end
                &&& b[0].start == if i == 0 {
                    from as usize
                } else {
                    slabs(shape, from)[i - 1][0].end
                }
            },
        slabs(shape, from).len() == 0 ==> from == shape[0],
        slabs(shape, from).len() > 0 ==> slabs(shape, from).last()[0].end == shape[0],
    decreases shape[0] - from,
{
    if from < shape[0] {
        let step = block_rows(shape);
        let to = if from + step < shape[0] {
            from + step
        } else {
            shape[0] as int
        };
        law_blocks_cover(shape, to);
        let all = slabs(shape, from);
        let rest = slabs(shape, to);
        assert(all =~= seq![slab(shape, from, to)] + rest);
        assert forall|i: int| 0 <= i < all.len() implies {
            let b = #[trigger] all[i];
            &&& b[0].start < b[0].end
            &&& b[0].start == if i == 0 {
                from as usize
            } else {
                all[i - 1][0].end
            }
        } by {
            if i > 0 {
                assert(all[i] == rest[i - 1]);
                if i > 1 {
                    assert(all[i - 1] == rest[i - 2]);
                }
            }
        }
        if rest.len() > 0 {
            assert(all.last() == rest.last());
        }
    }
}

/// No block of a scan holds more than the bound, unless it is a single row that alone
/// exceeds it.
pub proof fn law_blocks_are_bounded(shape: Seq<usize>, from: int, i: int)
    requires
        shape.len() > 0,
        0 <= from <= shape[0],
        0 <= i < slabs(shape, from).len(),
    ensures
        ({
            let b = slabs(shape, from)[i];
            let rows = b[0].end - b[0].start;
            rows * product(shape.skip(1)) <= STATS_BLOCK_ELEMS || rows == 1
        }),
    decreases shape[0] - from,
{
    let step = block_rows(shape);
    let to = if from + step < shape[0] {
        from + step
    } else {
        shape[0] as int
    };
    let all = slabs(shape, from);
    let rest = slabs(shape, to);
    assert(all =~= seq![slab(shape, from, to)] + rest);
    if i > 0 {
        law_blocks_are_bounded(shape, to, i - 1);
        assert(all[i] == rest[i - 1]);
    } else {
        let rows = to - from;
        let inner = product(shape.skip(1)) as int;
        assert(all[0] == slab(shape, from, to));
        if rows > 1 && inner > 0 {
            let most = STATS_BLOCK_ELEMS as int;
            assert(most / inner * inner <= most && rows * inner <= most) by (nonlinear_arith)
                requires
                    inner > 0,
                    most > 0,
                    rows <= most / inner,
            ;
        } else if inner == 0 {
            assert(rows * inner == 0) by (nonlinear_arith)
                requires
                    inner == 0,
            ;
        }
    }
}

/// The largest block that is read in place of several regions, in bytes.
pub const BUDGET_BYTES: usize = 268_435_456;

/// The smallest `start` and the largest `end` of several regions in one dimension.
pub open spec fn hull(rs: Seq<Seq<Span>>, d: int) -> Span
    decreases rs.len(),
{
    if rs.len() <= 1 {
        rs[0][d]
    } else {
        let h = hull(rs.drop_last(), d);
        let s = rs.last()[d];
        Span {
            start: if s.start < h.start {
                s.start
            } else {
                h.start
            },
            end: if s.end > h.end {
                s.end
            } else {
                h.end
            },
        }
    }
}

/// The smallest region around several ones.
pub open spec fn bounding_box(rs: Seq<Seq<Span>>) -> Seq<Span> {
    Seq::new(rs[0].len(), |d: int| hull(rs, d))
}

/// The smallest region around several ones of the same rank.
pub fn enclosing_region(rs: &Vec<Vec<Span>>) -> (r: Vec<Span>)
    requires
        rs.len() > 0,
        forall|i: int| 0 <= i < rs.len() ==> (#[trigger] rs@[i]).len() == rs@[0].len(),
    ensures
        r@ == bounding_box(regions_view(rs@)),
{
    let ghost all = regions_view(rs@);
    let rank = rs[0].len();
    let mut r: Vec<Span> = Vec::new();
    let mut d: usize = 0;
    while d < rank
        invariant
            d <= rank,
            rs.len() > 0,
            rank == rs@[0].len(),
            all == regions_view(rs@),
            forall|i: int| 0 <= i < rs.len() ==> (#[trigger] rs@[i]).len() == rank,
            r@ =~= bounding_box(all).take(d as int),
        decreases rank - d,
    {
        let mut h = rs[0][d];
        let mut i: usize = 1;
        proof {
            assert(all.take(1)[0] == rs@[0]@);
        }
        while i < rs.len()
            invariant
                1 <= i <= rs.len(),
                d < rank,
                all == regions_view(rs@),
                forall|k: int| 0 <= k < rs.len() ==> (#[trigger] rs@[k]).len() == rank,
                h == hull(all.take(i as int), d as int),
            decreases rs.len() - i,
        {
            proof {
                assert(all.take(i + 1).drop_last() =~= all.take(i as int));
                assert(all.take(i + 1).last() == rs@[i as int]@);
            }
            let s = rs[i][d];
            h = Span {
                start: if s.start < h.start {
                    s.start
                } else {
                    h.start
                },
                end: if s.end > h.end {
                    s.end
                } else {
                    h.end
                },
            };
            i = i + 1;
        }
        proof {
            assert(all.take(i as int) =~= all);
        }
        r.push(h);
        d = d + 1;
    }
    proof {
        let b = bounding_box(all);
        assert(b.take(rank as int) =~= b);
    }
    r
}

/// Whether several regions are read as one block: there are at least two, and the block
/// fits the budget.
pub fn reads_as_block(rs: &Vec<Vec<Span>>, item: usize) -> (b: bool)
    requires
        forall|i: int| 0 <= i < rs.len() ==> (#[trigger] rs@[i]).len() == rs@[0].len(),
        forall|i: int, d: int|
            0 <= i < rs.len() && 0 <= d < rs@[0].len() ==> (#[trigger] rs@[i]@[d]).start
                < rs@[i]@[d].end,
    ensures
        b == (rs.len() >= 2 && volume_of(bounding_box(regions_view(rs@))) * item <= BUDGET_BYTES),
{
    if rs.len() < 2 {
        return false;
    }
    let bbox = enclosing_region(rs);
    let ghost all = regions_view(rs@);
    proof {
        assert forall|d: int| 0 <= d < bbox@.len() implies (#[trigger] bbox@[d]).start
            < bbox@[d].end by {
            assert forall|i: int| 0 <= i < all.len() implies (#[trigger] all[i][d]).start
                < all[i][d].end by {
                assert(rs@[i]@[d].start < rs@[i]@[d].end);
            }
            lemma_hull_grows(all, d);
        }
    }
    let mut size: usize = item;
    let mut i: usize = 0;
    proof {
        assert(bbox@.take(0) =~= Seq::empty());
        assert(volume_of(bbox@.take(0)) == 1);
        assert(1 * item == item);
    }
    while i < bbox.len()
        invariant
            i <= bbox.len(),
            bbox@ == bounding_box(regions_view(rs@)),
            forall|d: int| 0 <= d < bbox@.len() ==> (#[trigger] bbox@[d]).start < bbox@[d].end,
            size == volume_of(bbox@.take(i as int)) * item,
        decreases bbox.len() - i,
    {
        let ghost v = volume_of(bbox@.take(i as int)) as int;
        proof {
            assert(bbox@.take(i + 1).drop_last() =~= bbox@.take(i as int));
            assert(bbox@[i as int].start < bbox@[i as int].end);
        }
        let n: usize = bbox[i].end - bbox[i].start;
        proof {
            let it = item as int;
            let nn = n as int;
            assert(v * it * nn == v * nn * it) by (nonlinear_arith);
        }
        match size.checked_mul(n) {
            Some(x) => {
                size = x;
            },
            None => {
                proof {
                    let w = volume_of(bbox@.take(i + 1)) as int;
                    let it = item as int;
                    let nn = n as int;
                    assert(bbox@.take(i + 1).last() == bbox@[i as int]);
                    assert(w == v * nn);
                    assert(size * n == v * it * nn);
                    assert(w * it > usize::MAX);
                    assert forall|d: int| 0 <= d < bbox@.len() implies (#[trigger] bbox@[d]).len()
                        > 0 by {
                        assert(bbox@[d].start < bbox@[d].end);
                    }
                    lemma_volume_prefix(bbox@, i + 1);
                    let all_v = volume_of(bbox@) as int;
                    assert(w * it <= all_v * it) by (nonlinear_arith)
                        requires
                            w <= all_v,
                            it >= 0,
                    ;
                }
                return false;
            },
        }
        i = i + 1;
    }
    proof {
        assert(bbox@.take(i as int) =~= bbox@);
    }
    size <= BUDGET_BYTES
}

proof fn lemma_hull_grows(rs: Seq<Seq<Span>>, d: int)
    requires
        rs.len() > 0,
        forall|i: int| 0 <= i < rs.len() ==> (#[trigger] rs[i][d]).start < rs[i][d].end,
    ensures
        hull(rs, d).start < hull(rs, d).end,
        forall|i: int|
            0 <= i < rs.len() ==> hull(rs, d).start <= (#[trigger] rs[i][d]).start && rs[i][d].end
                <= hull(rs, d).end,
    decreases rs.len(),
{
    if rs.len() > 1 {
        let t = rs.drop_last();
        assert forall|i: int| 0 <= i < t.len() implies (#[trigger] t[i][d]).start < t[i][d].end by {
            assert(t[i] == rs[i]);
        }
        lemma_hull_grows(t, d);
        assert(rs[rs.len() - 1][d].start < rs[rs.len() - 1][d].end);
        assert forall|i: int| 0 <= i < rs.len() implies hull(rs, d).start <= (#[trigger] rs[i][d]).start
            && rs[i][d].end <= hull(rs, d).end by {
            if i < t.len() {
                assert(t[i][d] == rs[i][d]);
            }
        }
    }
}

/// Every region lies inside the smallest region around all of them.
pub proof fn law_box_encloses(rs: Seq<Seq<Span>>, i: int)
    requires
        0 <= i < rs.len(),
        forall|k: int| 0 <= k < rs.len() ==> (#[trigger] rs[k]).len() == rs[0].len(),
        forall|k: int, d: int|
            0 <= k < rs.len() && 0 <= d < rs[0].len() ==> (#[trigger] rs[k][d]).start
                < rs[k][d].end,
    ensures
        nested(bounding_box(rs), rs[i]),
{
    assert(rs[i].len() == rs[0].len());
    let b = bounding_box(rs);
    assert forall|d: int|
        #![trigger b[d]]
        #![trigger rs[i][d]]
        0 <= d < b.len() implies b[d].start <= rs[i][d].start < rs[i][d].end <= b[d].end by {
        lemma_hull_grows(rs, d);
        assert(rs[i][d].start < rs[i][d].end);
    }
}

// ---------------------------------------------------------------------------
// What decoding and sampling give

/// The lowest `n` bytes of a number, the lowest first; those of a negative one in two's
/// complement.
pub open spec fn bytes_of(v: int, n: nat) -> Seq<u8>
    decreases n,
{
    if n == 0 {
        Seq::empty()
    } else {
        seq![(v % 256) as u8] + bytes_of(v / 256, (n - 1) as nat)
    }
}

proof fn lemma_bytes_of(v: int, n: nat)
    ensures
        bytes_of(v, n).len() == n,
        little_endian(bytes_of(v, n)) == v % byte_range(n) as int,
        byte_range(n) > 0,
    decreases n,
{
    let m = byte_range((n - 1) as nat) as int;
    if n == 0 {
        assert(v % 1 == 0);
    } else {
        lemma_bytes_of(v / 256, (n - 1) as nat);
        let b = bytes_of(v, n);
        assert(b.skip(1) =~= bytes_of(v / 256, (n - 1) as nat));
        let q = v / 256;
        let r = v % 256;
        let a = q / m;
        let s = q % m;
        assert(q == m * a + s && 0 <= s < m) by {
            vstd::arithmetic::div_mod::lemma_fundamental_div_mod(q, m);
        }
        assert(v == 256 * q + r);
        assert(v == a * (256 * m) + (256 * s + r)) by (nonlinear_arith)
            requires
                v == 256 * q + r,
                q == m * a + s,
        ;
        assert(0 <= 256 * s + r < 256 * m);
        vstd::arithmetic::div_mod::lemma_fundamental_div_mod_converse(v, 256 * m, a, 256 * s + r);
    }
}

proof fn lemma_bytes_read(v: int, n: nat)
    requires
        n == 1 || n == 2 || n == 4 || n == 8,
        -(byte_range(n) as int) <= 2 * v,
        v < byte_range(n),
    ensures
        bytes_of(v, n).len() == n,
        little_endian(bytes_of(v, n)) == if v < 0 {
            v + byte_range(n)
        } else {
            v
        },
{
    lemma_bytes_of(v, n);
    let m = byte_range(n) as int;
    if v < 0 {
        vstd::arithmetic::div_mod::lemma_fundamental_div_mod_converse(v, m, -1, v + m);
    } else {
        vstd::arithmetic::div_mod::lemma_fundamental_div_mod_converse(v, m, 0, v);
    }
}

/// Each integer dtype reads back the integers that fit in it from their little-endian
/// bytes, the signed ones from two's complement.
pub proof fn law_integers_read_back(v: int)
    ensures
        -0x80 <= v < 0x80 ==> dtype_value("I8"@, bytes_of(v, 1)) == Number::Int(v as i128),
        -0x8000 <= v < 0x8000 ==> dtype_value("I16"@, bytes_of(v, 2)) == Number::Int(v as i128),
        -0x8000_0000 <= v < 0x8000_0000 ==> dtype_value("I32"@, bytes_of(v, 4)) == Number::Int(
            v as i128,
        ),
        -0x8000_0000_0000_0000 <= v < 0x8000_0000_0000_0000 ==> dtype_value("I64"@, bytes_of(v, 8))
            == Number::Int(v as i128),
        0 <= v < 0x100 ==> dtype_value("U8"@, bytes_of(v, 1)) == Number::Int(v as i128),
        0 <= v < 0x100 ==> dtype_value("BOOL"@, bytes_of(v, 1)) == Number::Int(v as i128),
        0 <= v < 0x1_0000 ==> dtype_value("U16"@, bytes_of(v, 2)) == Number::Int(v as i128),
        0 <= v < 0x1_0000_0000 ==> dtype_value("U32"@, bytes_of(v, 4)) == Number::Int(v as i128),
        0 <= v < 0x1_0000_0000_0000_0000 ==> dtype_value("U64"@, bytes_of(v, 8)) == Number::Int(
            v as i128,
        ),
{
    lemma_labels();
    reveal_strlit("BOOL");
    reveal_strlit("F64");
    reveal_strlit("F32");
    reveal_strlit("F16");
    reveal_strlit("BF16");
    reveal_strlit("I64");
    reveal_strlit("I32");
    reveal_strlit("I16");
    reveal_strlit("I8");
    reveal_strlit("U64");
    reveal_strlit("U32");
    reveal_strlit("U16");
    reveal_strlit("U8");
    assert("BOOL"@.len() == 4);
    assert("BOOL"@[1] == 'O' && "BF16"@[1] == 'F');
    assert(prim_of("BOOL"@) == Some(Prim::U8));
    assert(byte_range(1) == 0x100 && byte_range(2) == 0x1_0000 && byte_range(4) == 0x1_0000_0000
        && byte_range(8) == 0x1_0000_0000_0000_0000) by {
        reveal_with_fuel(byte_range, 9);
    }
    if -0x80 <= v < 0x100 {
        lemma_bytes_read(v, 1);
    }
    if -0x8000 <= v < 0x1_0000 {
        lemma_bytes_read(v, 2);
    }
    if -0x8000_0000 <= v < 0x1_0000_0000 {
        lemma_bytes_read(v, 4);
    }
    if -0x8000_0000_0000_0000 <= v < 0x1_0000_0000_0000_0000 {
        lemma_bytes_read(v, 8);
    }
}

/// Each float dtype carries the bits that its little-endian bytes hold.
pub proof fn law_floats_keep_their_bits(v: int)
    ensures
        0 <= v < 0x1_0000_0000_0000_0000 ==> dtype_value("F64"@, bytes_of(v, 8)) == Number::F64(
            v as u64,
        ),
        0 <= v < 0x1_0000_0000 ==> dtype_value("F32"@, bytes_of(v, 4)) == Number::F32(v as u32),
        0 <= v < 0x1_0000 ==> dtype_value("F16"@, bytes_of(v, 2)) == Number::F16(v as u16),
        0 <= v < 0x1_0000 ==> dtype_value("BF16"@, bytes_of(v, 2)) == Number::BF16(v as u16),
{
    lemma_labels();
    assert(byte_range(2) == 0x1_0000 && byte_range(4) == 0x1_0000_0000 && byte_range(8)
        == 0x1_0000_0000_0000_0000) by {
        reveal_with_fuel(byte_range, 9);
    }
    if 0 <= v < 0x1_0000 {
        lemma_bytes_read(v, 2);
    }
    if 0 <= v < 0x1_0000_0000 {
        lemma_bytes_read(v, 4);
    }
    if 0 <= v < 0x1_0000_0000_0000_0000 {
        lemma_bytes_read(v, 8);
    }
}

/// Each dtype takes as many bytes as its name says; no other dtype can be decoded.
pub proof fn law_dtype_widths(dt: Seq<char>, b: Seq<u8>)
    ensures
        size_of_item(dt) == Some(8usize) <==> dt == "F64"@ || dt == "I64"@ || dt == "U64"@,
        size_of_item(dt) == Some(4usize) <==> dt == "F32"@ || dt == "I32"@ || dt == "U32"@,
        size_of_item(dt) == Some(2usize) <==> dt == "F16"@ || dt == "BF16"@ || dt == "I16"@ || dt
            == "U16"@,
        size_of_item(dt) == Some(1usize) <==> dt == "I8"@ || dt == "U8"@ || dt == "BOOL"@,
        size_of_item(dt) matches Some(n) ==> n == 1 || n == 2 || n == 4 || n == 8,
        size_of_item(dt) is None <==> dtype_value(dt, b) == Number::Unknown,
{
    lemma_labels();
    reveal_strlit("BOOL");
    reveal_strlit("F64");
    reveal_strlit("F32");
    reveal_strlit("F16");
    reveal_strlit("BF16");
    reveal_strlit("I64");
    reveal_strlit("I32");
    reveal_strlit("I16");
    reveal_strlit("I8");
    reveal_strlit("U64");
    reveal_strlit("U32");
    reveal_strlit("U16");
    reveal_strlit("U8");
    assert("BOOL"@[1] == 'O' && "BF16"@[1] == 'F');
}

/// Without a view a container has its own dtype's value, under another dtype that one's.
/// Of each byte the packed views give the low nibble and then the high one; the low and
/// high views give the first and the last of these. The signed views give the number of
/// `-8..8` that the nibble is in two's complement.
pub proof fn law_views_split_bytes(dt: Seq<char>, other: &'static str, b: Seq<u8>, i: int)
    requires
        0 <= i < b.len(),
    ensures
        view_value(ViewDtype::Stored, dt, b, 0) == dtype_value(dt, b),
        view_value(ViewDtype::As(other), dt, b, 0) == dtype_value(other@, b),
        ({
            let low = view_value(ViewDtype::U4Packed, dt, b, 2 * i);
            let high = view_value(ViewDtype::U4Packed, dt, b, 2 * i + 1);
            &&& low is Int && high is Int
            &&& 0 <= low->Int_0 < 16 && 0 <= high->Int_0 < 16
            &&& low->Int_0 + 16 * high->Int_0 == b[i]
        }),
        ({
            let u = view_value(ViewDtype::U4Packed, dt, b, 2 * i);
            let s = view_value(ViewDtype::I4Packed, dt, b, 2 * i);
            s is Int && -8 <= s->Int_0 < 8 && (s->Int_0 - u->Int_0) % 16 == 0
        }),
        ({
            let u = view_value(ViewDtype::U4Packed, dt, b, 2 * i + 1);
            let s = view_value(ViewDtype::I4Packed, dt, b, 2 * i + 1);
            s is Int && -8 <= s->Int_0 < 8 && (s->Int_0 - u->Int_0) % 16 == 0
        }),
        view_value(ViewDtype::U4Lo, dt, b, i) == view_value(ViewDtype::U4Packed, dt, b, 0),
        view_value(ViewDtype::I4Lo, dt, b, i) == view_value(ViewDtype::I4Packed, dt, b, 0),
        view_value(ViewDtype::U4Hi, dt, b, i) == view_value(
            ViewDtype::U4Packed,
            dt,
            b,
            2 * b.len() - 1,
        ),
        view_value(ViewDtype::I4Hi, dt, b, i) == view_value(
            ViewDtype::I4Packed,
            dt,
            b,
            2 * b.len() - 1,
        ),
        ViewDtype::U4Packed.values_per(b.len()) == 2 * b.len(),
        ViewDtype::I4Packed.values_per(b.len()) == 2 * b.len(),
        ViewDtype::Stored.values_per(b.len()) == 1,
        ViewDtype::As(other).values_per(b.len()) == 1,
        ViewDtype::U4Lo.values_per(b.len()) == 1,
        ViewDtype::U4Hi.values_per(b.len()) == 1,
        ViewDtype::I4Lo.values_per(b.len()) == 1,
        ViewDtype::I4Hi.values_per(b.len()) == 1,
{
    let x = (b[i] % 16) as i128;
    let y = (b[i] / 16) as i128;
    assert((2 * i) / 2 == i && (2 * i + 1) / 2 == i && (2 * i) % 2 == 0 && (2 * i + 1) % 2 == 1);
    assert(view_value(ViewDtype::U4Packed, dt, b, 2 * i) == Number::Int(x));
    assert(view_value(ViewDtype::U4Packed, dt, b, 2 * i + 1) == Number::Int(y));
    let s = if x >= 8 {
        (x - 16) as i128
    } else {
        x
    };
    let t = if y >= 8 {
        (y - 16) as i128
    } else {
        y
    };
    assert(view_value(ViewDtype::I4Packed, dt, b, 2 * i) == Number::Int(s));
    assert(view_value(ViewDtype::I4Packed, dt, b, 2 * i + 1) == Number::Int(t));
}

/// Evenly spaced indices are as many as fit, and the `i`-th of them is the whole number
/// nearest to its share of the way from the first index to the last.
pub proof fn law_grid_is_even(n: usize, k: usize, i: int)
    requires
        n > 0,
        k > 0,
        0 <= i < grid_of(n as int, k as int).len(),
    ensures
        grid_of(n as int, k as int).len() == if n <= k {
            n
        } else {
            k
        },
        n <= k ==> grid_of(n as int, k as int)[i] == i,
        n > k && k > 1 ==> {
            let at = 2 * (grid_of(n as int, k as int)[i] * (k - 1));
            let exact = 2 * (i * (n - 1));
            -(k - 1) <= at - exact <= k - 1
        },
{
    if n > k && k > 1 {
        lemma_grid_bound(n as int, k as int, i);
        let (a, b) = (i * (n - 1), k - 1);
        let g = grid_index(n as int, k as int, i);
        let x = a + b / 2;
        vstd::arithmetic::div_mod::lemma_fundamental_div_mod(x, b);
        assert(g * b == b * g) by (nonlinear_arith);
    }
}

/// The edges view shows the first indices and the last ones, without a hole in either
/// part, and `tail` of the last where so many are shown at all. A window shows neighbours:
/// from where it is asked to begin, or as far on as it fits.
pub proof fn law_edges_and_windows_are_runs(n: usize, max: usize, at: usize)
    requires
        n > 0,
        max > 0,
    ensures
        ({
            let e = edges_of(n as int, max as int, at as int);
            let shown = 2 * ((max - 1) / 2);
            let tail = if at <= shown {
                at as int
            } else {
                shown
            };
            &&& e.len() == if n <= shown {
                n as int
            } else {
                shown
            }
            &&& n <= shown ==> forall|i: int| 0 <= i < e.len() ==> #[trigger] e[i] == i
            &&& n > shown ==> forall|i: int|
                0 <= i < e.len() ==> #[trigger] e[i] == if i < e.len() - tail {
                    i
                } else {
                    n - e.len() + i
                }
        }),
        ({
            let w = window_of(n as int, max as int, at as int);
            let first = if at + w.len() <= n {
                at as int
            } else {
                n - w.len()
            };
            forall|i: int| 0 <= i < w.len() ==> #[trigger] w[i] == first + i
        }),
{
}

/// What a sample shows in a row and a column is what the tensor's bytes hold in the place
/// of that element, counted in rows from the first slice on: the container there under a
/// view of whole containers, and under a packed one the value of its nibble.
pub proof fn law_sample_shows_the_elements(
    t: TensorInfo,
    s: Sample,
    blob: Seq<u8>,
    max_rows: usize,
    max_cols: usize,
    slice: usize,
    view: ViewDtype,
    mode: SampleMode,
    i: int,
    j: int,
)
    requires
        1 <= t.shape@.len() <= 3,
        size_of_item(t.dtype@) is Some,
        is_plan(s.plan, t, max_rows, max_cols, slice, view, mode),
        shows_cells(s, blob, t.dtype@, size_of_item(t.dtype@)->0 as int),
        0 <= i < s.plan.rows.len(),
        0 <= j < s.plan.cols.len(),
        s.plan.rows@[i] < s.plan.total_rows,
        s.plan.cols@[j] < s.plan.total_cols,
        blob.len() >= (((s.plan.slice * s.plan.total_rows + s.plan.rows@[i]) * s.plan.total_cols
            + s.plan.cols@[j]) / s.plan.packing as int + 1) * size_of_item(t.dtype@)->0,
    ensures
        ({
            let n = t.shape@.len();
            let item = size_of_item(t.dtype@)->0 as int;
            let rows = if n == 1 {
                1int
            } else {
                t.shape@[n - 2] as int
            };
            let cols = t.shape@[n - 1] as int;
            let v = s.values@[i]@[j];
            let line = s.plan.slice * rows + s.plan.rows@[i];
            let c = s.plan.cols@[j] as int;
            &&& s.plan.total_rows == rows
            &&& n < 3 ==> s.plan.slice == 0
            &&& n == 3 && slice < t.shape@[0] ==> s.plan.slice == slice
            &&& n == 3 && slice >= t.shape@[0] ==> s.plan.slice == t.shape@[0] - 1
            &&& s.plan.packing == 1 ==> s.plan.total_cols == cols && v == view_value(
                s.plan.view,
                t.dtype@,
                blob.subrange((line * cols + c) * item, (line * cols + c) * item + item),
                0,
            )
            &&& s.plan.packing > 1 ==> s.plan.total_cols == cols * (2 * item) && v == ({
                let at = line * cols + c / (2 * item);
                view_value(
                    s.plan.view,
                    t.dtype@,
                    blob.subrange(at * item, at * item + item),
                    c % (2 * item),
                )
            })
        }),
{
    let p = s.plan;
    let n = t.shape@.len();
    let item = size_of_item(t.dtype@)->0 as int;
    let pk = p.packing as int;
    let cols = t.shape@[n - 1] as int;
    let (r, c) = (p.rows@[i] as int, p.cols@[j] as int);
    let line = p.slice * p.total_rows + r;
    let v = s.values@[i]@[j];
    let flat = flat_index(p, r, c);
    assert(v == element_at(blob, p.view, t.dtype@, item, pk, flat));
    lemma_flat_index(p, r, c);
    assert(flat == line * p.total_cols + c);
    assert(p.total_cols == cols * pk);
    assert(1 <= pk <= 2 * item);
    assert(cols > 0) by (nonlinear_arith)
        requires
            p.total_cols == cols * pk,
            0 <= c < p.total_cols,
            cols >= 0,
            pk > 0,
    ;
    lemma_container(line, cols, pk, c);
    let at = flat / pk;
    assert(at == line * cols + c / pk);
    assert(flat % pk == c % pk) by {
        vstd::arithmetic::div_mod::lemma_fundamental_div_mod(c, pk);
        let z = c % pk;
        assert(flat == at * pk + z) by (nonlinear_arith)
            requires
                flat == line * (cols * pk) + c,
                c == pk * (c / pk) + z,
                at == line * cols + c / pk,
        ;
        vstd::arithmetic::div_mod::lemma_fundamental_div_mod_converse(flat, pk, at, z);
    }
    assert(at * item + item <= blob.len()) by (nonlinear_arith)
        requires
            (at + 1) * item <= blob.len(),
    ;
    if pk == 1 {
        assert(c / 1 == c && c % 1 == 0);
        assert(cols * 1 == cols);
    }
}

// ---------------------------------------------------------------------------
// Indices and widths

/// The place of an element in memory, the last dimension running fastest.
pub open spec fn raveled(at: Seq<int>, shape: Seq<usize>) -> int
    decreases shape.len(),
{
    if shape.len() == 0 {
        0
    } else {
        raveled(at.drop_last(), shape.drop_last()) * shape.last() + at.last()
    }
}

/// The index of an element in each dimension leads back to its place in memory, and is within
/// the shape.
pub proof fn law_indices_lead_back(flat: int, shape: Seq<usize>)
    requires
        no_zero(shape),
        0 <= flat < product(shape),
    ensures
        unraveled(flat, shape).len() == shape.len(),
        raveled(unraveled(flat, shape), shape) == flat,
        forall|d: int|
            0 <= d < shape.len() ==> 0 <= #[trigger] unraveled(flat, shape)[d] < shape[d],
    decreases shape.len(),
{
    lemma_unraveled(flat, shape);
    if shape.len() > 0 {
        let d = shape.last() as int;
        let s = shape.drop_last();
        assert(shape[shape.len() - 1] > 0);
        assert forall|i: int| 0 <= i < s.len() implies #[trigger] s[i] > 0 by {
            assert(s[i] == shape[i]);
        }
        vstd::arithmetic::div_mod::lemma_fundamental_div_mod(flat, d);
        let p = product(s) as int;
        assert(product(shape) == p * d);
        let q = flat / d;
        assert(0 <= q < p) by (nonlinear_arith)
            requires
                0 <= flat < p * d,
                flat == d * q + flat % d,
                0 <= flat % d < d,
        ;
        law_indices_lead_back(q, s);
        let at = unraveled(flat, shape);
        assert(at.drop_last() =~= unraveled(q, s));
        assert(q * d + flat % d == flat) by (nonlinear_arith)
            requires
                flat == d * q + flat % d,
        ;
    } else {
        assert(product(shape) == 1);
    }
}

/// A shape of up to three dimensions is a stack of matrices: the last dimension is that of
/// their columns, the one before of their rows, the first of three of the slices; nothing is
/// lost.
pub proof fn law_shapes_are_stacks_of_matrices(a: usize, b: usize, c: usize)
    ensures
        matrix_of(seq![c]) == Some((1usize, c, 1usize)),
        matrix_of(seq![b, c]) == Some((b, c, 1usize)),
        matrix_of(seq![a, b, c]) == Some((b, c, a)),
        matrix_of(Seq::empty()) is None,
        matrix_of(seq![a, b, c, 1]) is None,
{
}

/// The cell of an integer has room for the smallest and the largest value and a gap; while
/// they are not known, for every value of the dtype.
pub proof fn law_cells_have_room(view: ViewDtype, stored: Seq<char>, lo: i64, hi: i64)
    requires
        view.integral(stored),
    ensures
        signed(lo as int).len() < view.cell(stored, Some((lo, hi))),
        signed(hi as int).len() < view.cell(stored, Some((lo, hi))),
        view.widest(stored) < view.cell(stored, None),
        view.cell(stored, Some((lo, hi))) >= 3,
        view.cell(stored, Some((lo, hi))) == 3 || view.cell(stored, Some((lo, hi))) == signed(
            lo as int,
        ).len() + 1 || view.cell(stored, Some((lo, hi))) == signed(hi as int).len() + 1,
{
}

/// A packed view makes the last dimension twice as many times longer as a container has
/// bytes; other views leave the shape alone, and no view touches the other dimensions.
pub proof fn law_packed_views_lengthen_the_last(view: ViewDtype, shape: Seq<usize>, stored: Seq<char>)
    requires
        shape.len() > 0,
        size_of_item(stored) is Some,
        shape.last() * 16 <= usize::MAX,
    ensures
        ({
            let n = size_of_item(stored)->0;
            let after = view.shape_under(shape, stored);
            &&& after.len() == shape.len()
            &&& forall|i: int| 0 <= i < shape.len() - 1 ==> #[trigger] after[i] == shape[i]
            &&& view is U4Packed || view is I4Packed ==> after.last() == shape.last() * (2 * n)
            &&& !(view is U4Packed || view is I4Packed) ==> after == shape
        }),
{
    let n = size_of_item(stored)->0 as int;
    let last = shape.last() as int;
    assert(n == 1 || n == 2 || n == 4 || n == 8);
    assert(last * (2 * n) <= last * 16) by (nonlinear_arith)
        requires
            n <= 8,
            last >= 0,
    ;
}

/// A menu offers for a dtype the others of its width, and only dtypes of its width.
pub proof fn law_menus_offer_the_same_width(dt: Seq<char>, size: usize)
    ensures
        dtypes_of_width(Some(size)).contains(dt) ==> size_of_item(dt) == Some(size),
        size_of_item(dt) == Some(size) && dt != "BOOL"@ ==> dtypes_of_width(Some(size)).contains(dt),
        dtypes_of_width(None).len() == 0,
{
    law_dtype_widths(dt, Seq::empty());
    let d = dtypes_of_width(Some(size));
    if d.contains(dt) {
        let i = d.index_of(dt);
        assert(d[i] == dt);
    }
    if size == 1 {
        assert(d[0] == "I8"@ && d[1] == "U8"@);
    } else if size == 2 {
        assert(d[0] == "F16"@ && d[1] == "BF16"@ && d[2] == "I16"@ && d[3] == "U16"@);
    } else if size == 4 {
        assert(d[0] == "F32"@ && d[1] == "I32"@ && d[2] == "U32"@);
    } else if size == 8 {
        assert(d[0] == "F64"@ && d[1] == "I64"@ && d[2] == "U64"@);
    }
}

/// The bytes of a safetensors tensor are reached by its byte range, those of an HDF5 dataset
/// through the file; those of other files, and of dtypes without a width, are not; HDF5 has
/// no `BF16`.
pub proof fn law_bytes_are_reached_by_the_file(t: TensorInfo)
    ensures
        path_extension(t.source_path@) == Some("safetensors"@) && size_of_item(t.dtype@) is Some ==> (
        t.layout matches Layout::ByteRange { start, end } ==> reader_of(t) == Ok::<
            Reader,
            Seq<char>,
        >(Reader::Safetensors { start, end, item: size_of_item(t.dtype@)->0 })),
        path_extension(t.source_path@) == Some("h5"@) && size_of_item(t.dtype@) is Some
            ==> reader_of(t) == Ok::<Reader, Seq<char>>(
            Reader::Hdf5 { item: size_of_item(t.dtype@)->0 },
        ),
        size_of_item(t.dtype@) is None ==> reader_of(t) is Err,
        path_extension(t.source_path@) is None ==> reader_of(t) is Err,
        read_fault(t) is Some ==> t.dtype@ == "BF16"@,
        path_extension(t.source_path@) == Some("safetensors"@) ==> read_fault(t) is None,
{
    reveal_strlit("safetensors");
    reveal_strlit("h5");
    reveal_strlit("hdf5");
    assert("safetensors"@.len() == 11 && "h5"@.len() == 2 && "hdf5"@.len() == 4);
}

/// A sample is refused for a tensor of more than three dimensions and for an empty one; its
/// cells are refused where the bytes end before the last of them.
pub proof fn law_samples_are_refused(t: TensorInfo, view: ViewDtype, last: int, len: nat)
    ensures
        t.shape@.len() == 0 || t.shape@.len() > 3 ==> plan_fault(t, view) is Some,
        1 <= t.shape@.len() <= 3 && (exists|i: int|
            0 <= i < t.shape@.len() && #[trigger] t.shape@[i] == 0) ==> plan_fault(t, view) is Some,
        size_of_item(t.dtype@) is Some && 0 <= last && packing_of(
            effective_view(t.source_path@, view),
            t.dtype@,
        ) == 1 && (last + 1) * size_of_item(t.dtype@)->0 > len ==> data_fault(
            t,
            view,
            Some(last),
            len,
        ) is Some,
{
    if exists|i: int| 0 <= i < t.shape@.len() && #[trigger] t.shape@[i] == 0 {
        let i = choose|i: int| 0 <= i < t.shape@.len() && #[trigger] t.shape@[i] == 0;
        assert(i == 0 || i == 1 || i == 2 || t.shape@.len() > 3);
    }
    let item = size_of_item(t.dtype@)->0 as nat;
    assert(last / 1 == last);
}

} // verus!
