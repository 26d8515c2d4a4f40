//! The restricted set of R-like data types used in DataFrame columns. Every
//! value is wrapped in `Option` so that `None` stands for an NA cell.
//! - RInteger: `Option<i32>`
//! - RNumeric: `Option<NumBits>`, a 64-bit floating point number held as its bits
//! - RLogical: `Option<bool>`
//! - RSize:    `Option<usize>`
//! - RFactor:  `Option<u16>`, a level of a categorical column
//! - RString:  `Option<String>`
pub mod num;
pub mod agg;
pub mod do_agg;

use vstd::prelude::*;
use crate::data_frame::text::{int_text, decimal_text};

pub use agg::Agg;
pub use do_agg::Do;

verus! {

/// The bit pattern of a 64-bit floating point number, as stored in an RNumeric
/// column. Keys, sorting and grouping act on the bits; formatting and parsing of the
/// number happen outside the library.
#[derive(Clone, Copy, PartialEq, Eq, Structural, Debug)]
pub struct NumBits(pub u64);

/// RIntegerPrim data type is i32.
pub type RIntegerPrim = i32;
/// RInteger data type is Option<i32>.
pub type RInteger = Option<i32>;
/// RNumericPrim data type is the bits of an f64.
pub type RNumericPrim = NumBits;
/// RNumeric data type is Option<NumBits>.
pub type RNumeric = Option<NumBits>;
/// RLogicalPrim data type is bool.
pub type RLogicalPrim = bool;
/// RLogical data type is Option<bool>.
pub type RLogical = Option<bool>;
/// RSizePrim data type is usize.
pub type RSizePrim = usize;
/// RSize data type is Option<usize>.
pub type RSize = Option<usize>;
/// RFactorPrim data type is u16.
pub type RFactorPrim = u16;
/// RFactor data type is Option<u16>.
pub type RFactor = Option<u16>;
/// RStringPrim data type is String.
pub type RStringPrim = String;
/// RString data type is Option<String>.
pub type RString = Option<String>;

/// Trait RLike is implemented for all data types supported by R-like data
/// objects: an NA-able value with an inner primitive.
pub trait RLike: Sized {
    /// The primitive type inside the value.
    type Inner;

    /// Whether the value is the NA value.
    spec fn na_value(&self) -> bool;

    /// The NA value.
    fn default() -> (r: Self)
        ensures
            r.na_value(),
    ;

    /// The value holding `inner`.
    fn from_inner(inner: Self::Inner) -> Self;

    /// The inner value, or the primitive's default for NA (so NA counts as
    /// removed).
    fn to_inner(&self) -> Self::Inner;

    /// The text of the value, "NA" for NA.
    fn to_string(&self) -> String;

    /// Whether the value is NA.
    fn is_na(&self) -> bool;
}

/// The text of an NA value.
pub open spec fn na_text() -> Seq<char> {
    seq!['N', 'A']
}

/// The text "NA".
pub fn na_string() -> (s: String)
    ensures
        s@ == na_text(),
{
    let s = "NA";
    proof {
        reveal_strlit("NA");
    }
    s.to_string()
}

/// The text of an integer value, or "NA".
pub open spec fn opt_int_text(v: Option<int>) -> Seq<char> {
    match v {
        Some(x) => decimal_text(x),
        None => na_text(),
    }
}

impl RLike for Option<i32> {
    type Inner = i32;

    open spec fn na_value(&self) -> bool {
        *self is None
    }

    fn default() -> Self {
        None
    }

    fn from_inner(inner: i32) -> (r: Self)
        ensures
            r == Some(inner),
    {
        Some(inner)
    }

    fn to_inner(&self) -> (r: i32)
        ensures
            r == match *self {
                Some(v) => v,
                None => 0,
            },
    {
        match self {
            Some(v) => *v,
            None => 0,
        }
    }

    fn to_string(&self) -> (s: String)
        ensures
            s@ == opt_int_text(
                match *self {
                    Some(v) => Some(v as int),
                    None => None,
                },
            ),
    {
        match self {
            Some(v) => int_text(*v as i128),
            None => na_string(),
        }
    }

    fn is_na(&self) -> (r: bool)
        ensures
            r == self.is_none(),
    {
        self.is_none()
    }
}

impl RLike for Option<usize> {
    type Inner = usize;

    open spec fn na_value(&self) -> bool {
        *self is None
    }

    fn default() -> Self {
        None
    }

    fn from_inner(inner: usize) -> (r: Self)
        ensures
            r == Some(inner),
    {
        Some(inner)
    }

    fn to_inner(&self) -> (r: usize)
        ensures
            r == match *self {
                Some(v) => v,
                None => 0,
            },
    {
        match self {
            Some(v) => *v,
            None => 0,
        }
    }

    fn to_string(&self) -> (s: String)
        ensures
            s@ == opt_int_text(
                match *self {
                    Some(v) => Some(v as int),
                    None => None,
                },
            ),
    {
        match self {
            Some(v) => int_text(*v as i128),
            None => na_string(),
        }
    }

    fn is_na(&self) -> (r: bool)
        ensures
            r == self.is_none(),
    {
        self.is_none()
    }
}

impl RLike for Option<u16> {
    type Inner = u16;

    open spec fn na_value(&self) -> bool {
        *self is None
    }

    fn default() -> Self {
        None
    }

    fn from_inner(inner: u16) -> (r: Self)
        ensures
            r == Some(inner),
    {
        Some(inner)
    }

    fn to_inner(&self) -> (r: u16)
        ensures
            r == match *self {
                Some(v) => v,
                None => 0,
            },
    {
        match self {
            Some(v) => *v,
            None => 0,
        }
    }

    fn to_string(&self) -> (s: String)
        ensures
            s@ == opt_int_text(
                match *self {
                    Some(v) => Some(v as int),
                    None => None,
                },
            ),
    {
        match self {
            Some(v) => int_text(*v as i128),
            None => na_string(),
        }
    }

    fn is_na(&self) -> (r: bool)
        ensures
            r == self.is_none(),
    {
        self.is_none()
    }
}

/// The text of a logical value: "true", "false" or "NA".
pub open spec fn opt_bool_text(v: Option<bool>) -> Seq<char> {
    match v {
        Some(true) => seq!['t', 'r', 'u', 'e'],
        Some(false) => seq!['f', 'a', 'l', 's', 'e'],
        None => na_text(),
    }
}

impl RLike for Option<bool> {
    type Inner = bool;

    open spec fn na_value(&self) -> bool {
        *self is None
    }

    fn default() -> Self {
        None
    }

    fn from_inner(inner: bool) -> (r: Self)
        ensures
            r == Some(inner),
    {
        Some(inner)
    }

    fn to_inner(&self) -> (r: bool)
        ensures
            r == match *self {
                Some(v) => v,
                None => false,
            },
    {
        match self {
            Some(v) => *v,
            None => false,
        }
    }

    fn to_string(&self) -> (s: String)
        ensures
            s@ == opt_bool_text(*self),
    {
        match self {
            Some(true) => {
                let t = "true";
                proof {
                    reveal_strlit("true");
                }
                t.to_string()
            },
            Some(false) => {
                let f = "false";
                proof {
                    reveal_strlit("false");
                }
                f.to_string()
            },
            None => na_string(),
        }
    }

    fn is_na(&self) -> (r: bool)
        ensures
            r == self.is_none(),
    {
        self.is_none()
    }
}

impl RLike for Option<String> {
    type Inner = String;

    open spec fn na_value(&self) -> bool {
        *self is None
    }

    fn default() -> Self {
        None
    }

    fn from_inner(inner: String) -> (r: Self)
        ensures
            r == Some(inner),
    {
        Some(inner)
    }

    fn to_inner(&self) -> (r: String)
        ensures
            r@ == match *self {
                Some(v) => v@,
                None => na_text(),
            },
    {
        match self {
            Some(s) => s.clone(),
            None => na_string(),
        }
    }

    fn to_string(&self) -> (s: String)
        ensures
            s@ == match *self {
                Some(v) => v@,
                None => na_text(),
            },
    {
        self.to_inner()
    }

    fn is_na(&self) -> (r: bool)
        ensures
            r == self.is_none(),
    {
        self.is_none()
    }
}

/// Trait ToRL converts a primitive value into its R-like value.
/// Example: `(15).to_rl()` is `Some(15)`.
pub trait ToRL {
    /// The R-like type.
    type Inner;

    /// The R-like value holding `self`.
    fn to_rl(self) -> Self::Inner;
}

/// Trait ToRLVec converts a vector of primitive values into a vector of R-like
/// values. Example: `vec![1, 2, 3].to_rl()`.
pub trait ToRLVec {
    /// The R-like type.
    type Inner;

    /// The R-like values holding each element, in order.
    fn to_rl(&self) -> Vec<Self::Inner>;
}

/// Wrap each element of a vector in `Some`.
pub fn wrap_option_vec<T: Copy>(x: &Vec<T>) -> (r: Vec<Option<T>>)
    ensures
        r@ == x@.map_values(|v: T| Some(v)),
{
    let mut r: Vec<Option<T>> = Vec::new();
    let mut i: usize = 0;
    while i < x.len()
        invariant
            i <= x@.len(),
            r@ == x@.take(i as int).map_values(|v: T| Some(v)),
        decreases x@.len() - i,
    {
        r.push(Some(x[i]));
        assert(x@.take(i + 1) =~= x@.take(i as int).push(x@[i as int]));
        assert(r@ =~= x@.take(i + 1).map_values(|v: T| Some(v)));
        i = i + 1;
    }
    assert(x@.take(x@.len() as int) =~= x@);
    r
}

impl ToRL for i32 {
    type Inner = Option<i32>;

    fn to_rl(self) -> (r: Option<i32>)
        ensures
            r == Some(self),
    {
        Some(self)
    }
}

impl ToRL for bool {
    type Inner = Option<bool>;

    fn to_rl(self) -> (r: Option<bool>)
        ensures
            r == Some(self),
    {
        Some(self)
    }
}

impl ToRL for usize {
    type Inner = Option<usize>;

    fn to_rl(self) -> (r: Option<usize>)
        ensures
            r == Some(self),
    {
        Some(self)
    }
}

impl ToRL for u16 {
    type Inner = Option<u16>;

    fn to_rl(self) -> (r: Option<u16>)
        ensures
            r == Some(self),
    {
        Some(self)
    }
}

impl ToRL for NumBits {
    type Inner = Option<NumBits>;

    fn to_rl(self) -> (r: Option<NumBits>)
        ensures
            r == Some(self),
    {
        Some(self)
    }
}

impl ToRL for String {
    type Inner = Option<String>;

    fn to_rl(self) -> (r: Option<String>)
        ensures
            r == Some(self),
    {
        Some(self)
    }
}

impl ToRL for &str {
    type Inner = Option<String>;

    fn to_rl(self) -> (r: Option<String>)
        ensures
            r matches Some(s) && s@ == self@,
    {
        Some(self.to_string())
    }
}

impl ToRLVec for Vec<i32> {
    type Inner = Option<i32>;

    fn to_rl(&self) -> (r: Vec<Option<i32>>)
        ensures
            r@ == self@.map_values(|v: i32| Some(v)),
    {
        wrap_option_vec(self)
    }
}

impl ToRLVec for Vec<bool> {
    type Inner = Option<bool>;

    fn to_rl(&self) -> (r: Vec<Option<bool>>)
        ensures
            r@ == self@.map_values(|v: bool| Some(v)),
    {
        wrap_option_vec(self)
    }
}

impl ToRLVec for Vec<usize> {
    type Inner = Option<usize>;

    fn to_rl(&self) -> (r: Vec<Option<usize>>)
        ensures
            r@ == self@.map_values(|v: usize| Some(v)),
    {
        wrap_option_vec(self)
    }
}

impl ToRLVec for Vec<u16> {
    type Inner = Option<u16>;

    fn to_rl(&self) -> (r: Vec<Option<u16>>)
        ensures
            r@ == self@.map_values(|v: u16| Some(v)),
    {
        wrap_option_vec(self)
    }
}

impl ToRLVec for Vec<NumBits> {
    type Inner = Option<NumBits>;

    fn to_rl(&self) -> (r: Vec<Option<NumBits>>)
        ensures
            r@ == self@.map_values(|v: NumBits| Some(v)),
    {
        wrap_option_vec(self)
    }
}

impl ToRLVec for Vec<String> {
    type Inner = Option<String>;

    fn to_rl(&self) -> (r: Vec<Option<String>>)
        ensures
            r@.len() == self@.len(),
            forall|i: int| 0 <= i < self@.len() ==> ((#[trigger] r@[i]) matches Some(s) && s@ == self@[i]@),
    {
        let mut r: Vec<Option<String>> = Vec::new();
        let mut i: usize = 0;
        while i < self.len()
            invariant
                i <= self@.len(),
                r@.len() == i,
                forall|k: int| 0 <= k < i ==> ((#[trigger] r@[k]) matches Some(s) && s@ == self@[k]@),
            decreases self@.len() - i,
        {
            r.push(Some(self[i].clone()));
            i = i + 1;
        }
        r
    }
}

impl ToRLVec for Vec<&str> {
    type Inner = Option<String>;

    fn to_rl(&self) -> (r: Vec<Option<String>>)
        ensures
            r@.len() == self@.len(),
            forall|i: int| 0 <= i < self@.len() ==> ((#[trigger] r@[i]) matches Some(s) && s@ == self@[i]@),
    {
        let mut r: Vec<Option<String>> = Vec::new();
        let mut i: usize = 0;
        while i < self.len()
            invariant
                i <= self@.len(),
                r@.len() == i,
                forall|k: int| 0 <= k < i ==> ((#[trigger] r@[k]) matches Some(s) && s@ == self@[k]@),
            decreases self@.len() - i,
        {
            r.push(Some(self[i].to_string()));
            i = i + 1;
        }
        r
    }
}

} // verus!
