//! Typed field values.

use vstd::prelude::*;
use vstd::slice::slice_to_vec;
use vstd::string::*;
use vstd::utf8::*;

use crate::text::{
    fraction_text, shown_text, signed_string, signed_text, text_eq, utf8_lossy, Decimal,
    ParseInteger,
};

verus! {

broadcast use vstd::string::group_string_axioms;

/// Type-safe value representation for a builder message.
#[derive(Debug, PartialEq)]
pub enum TypedValue {
    Int(i64),
    /// A decimal fraction, such as a price or a quantity.
    Float(Decimal),
    String(String),
    Char(char),
    /// Binary data (for data fields)
    Data(Vec<u8>),
    Boolean(bool),
    /// Empty/unset value
    Empty,
}

/// A [`TypedValue`] by what it says.
pub ghost enum Typed {
    Int(int),
    Float(Seq<char>),
    String(Seq<char>),
    Char(char),
    Data(Seq<u8>),
    Boolean(bool),
    Empty,
}

impl View for TypedValue {
    type V = Typed;

    open spec fn view(&self) -> Typed {
        match self {
            TypedValue::Int(v) => Typed::Int(*v as int),
            TypedValue::Float(v) => Typed::Float(v@),
            TypedValue::String(v) => Typed::String(v@),
            TypedValue::Char(v) => Typed::Char(*v),
            TypedValue::Data(v) => Typed::Data(v@),
            TypedValue::Boolean(v) => Typed::Boolean(*v),
            TypedValue::Empty => Typed::Empty,
        }
    }
}

impl Typed {
    /// The value as FIX writes it.
    pub open spec fn text(self) -> Seq<char> {
        match self {
            Typed::Int(v) => signed_text(v),
            Typed::Float(v) => v,
            Typed::String(v) => v,
            Typed::Char(v) => seq![v],
            Typed::Data(v) => shown_text(v),
            Typed::Boolean(v) => if v {
                "Y"@
            } else {
                "N"@
            },
            Typed::Empty => Seq::empty(),
        }
    }

    /// The value as raw data.
    pub open spec fn raw(self) -> Seq<u8> {
        match self {
            Typed::Data(v) => v,
            _ => encode_utf8(self.text()),
        }
    }

    pub open spec fn is_empty(self) -> bool {
        match self {
            Typed::Empty => true,
            Typed::String(v) => v.len() == 0,
            _ => false,
        }
    }

    pub open spec fn whole(self) -> Option<int> {
        match self {
            Typed::Int(v) => Some(v),
            Typed::String(v) => match i64::parsed(encode_utf8(v)) {
                Ok(i) => Some(i as int),
                Err(_) => None,
            },
            _ => None,
        }
    }

    pub open spec fn fraction(self) -> Option<Seq<char>> {
        match self {
            Typed::Float(v) => Some(v),
            Typed::String(v) => fraction_text(encode_utf8(v)),
            Typed::Int(v) => Some(signed_text(v)),
            _ => None,
        }
    }

    pub open spec fn boolean(self) -> Option<bool> {
        match self {
            Typed::Boolean(v) => Some(v),
            Typed::String(v) => if v == "Y"@ {
                Some(true)
            } else if v == "N"@ {
                Some(false)
            } else {
                None
            },
            _ => None,
        }
    }
}

impl Default for TypedValue {
    fn default() -> (r: Self)
        ensures
            r@ == Typed::Empty,
    {
        TypedValue::Empty
    }
}

impl Clone for TypedValue {
    fn clone(&self) -> (r: Self)
        ensures
            r@ == self@,
    {
        match self {
            TypedValue::Int(v) => TypedValue::Int(*v),
            TypedValue::Float(v) => TypedValue::Float(v.clone()),
            TypedValue::String(v) => TypedValue::String(v.clone()),
            TypedValue::Char(v) => TypedValue::Char(*v),
            TypedValue::Data(v) => TypedValue::Data(slice_to_vec(v.as_slice())),
            TypedValue::Boolean(v) => TypedValue::Boolean(*v),
            TypedValue::Empty => TypedValue::Empty,
        }
    }
}

impl TypedValue {
    pub fn as_string(&self) -> (r: String)
        ensures
            r@ == self@.text(),
    {
        match self {
            TypedValue::Int(v) => signed_string(*v),
            TypedValue::Float(v) => v.as_str().to_owned(),
            TypedValue::String(v) => v.clone(),
            TypedValue::Char(v) => {
                let mut s = String::new();
                s.push(*v);
                assert(s@ =~= seq![*v]);
                s
            },
            TypedValue::Data(v) => utf8_lossy(v.as_slice()),
            TypedValue::Boolean(v) => (if *v {
                "Y"
            } else {
                "N"
            }).to_owned(),
            TypedValue::Empty => String::new(),
        }
    }

    pub fn into_string(self) -> (r: String)
        ensures
            r@ == self@.text(),
    {
        match self {
            TypedValue::String(v) => v,
            other => other.as_string(),
        }
    }

    /// The value as raw data.
    pub fn into_raw(self) -> (r: Vec<u8>)
        ensures
            r@ == self@.raw(),
    {
        match self {
            TypedValue::Data(v) => v,
            other => slice_to_vec(other.as_string().as_str().as_bytes()),
        }
    }

    pub fn as_int(&self) -> (r: Option<i64>)
        ensures
            match r {
                Some(i) => self@.whole() == Some(i as int),
                None => self@.whole() is None,
            },
    {
        match self {
            TypedValue::Int(v) => Some(*v),
            TypedValue::String(s) => match i64::parse_integer(s.as_str().as_bytes()) {
                Ok(i) => Some(i),
                Err(_) => None,
            },
            _ => None,
        }
    }

    /// The value as a decimal fraction.
    pub fn as_float(&self) -> (r: Option<Decimal>)
        ensures
            match r {
                Some(d) => self@.fraction() == Some(d@),
                None => self@.fraction() is None,
            },
    {
        match self {
            TypedValue::Float(v) => Some(v.clone()),
            TypedValue::String(s) => Decimal::parse(s.as_str()),
            TypedValue::Int(v) => Some(Decimal::from_int(*v)),
            _ => None,
        }
    }

    pub fn as_bool(&self) -> (r: Option<bool>)
        ensures
            r == self@.boolean(),
    {
        match self {
            TypedValue::Boolean(v) => Some(*v),
            TypedValue::String(s) => {
                if text_eq(s.as_str(), "Y") {
                    Some(true)
                } else if text_eq(s.as_str(), "N") {
                    Some(false)
                } else {
                    None
                }
            },
            _ => None,
        }
    }

    pub fn is_empty(&self) -> (r: bool)
        ensures
            r == self@.is_empty(),
    {
        match self {
            TypedValue::Empty => true,
            TypedValue::String(s) => s.as_str().is_empty(),
            _ => false,
        }
    }
}

/// What can be put into a field.
pub trait IntoTyped: Sized {
    spec fn typed(self) -> Typed;

    fn into_typed(self) -> (r: TypedValue)
        ensures
            r@ == self.typed(),
    ;
}

impl IntoTyped for TypedValue {
    open spec fn typed(self) -> Typed {
        self@
    }

    fn into_typed(self) -> (r: TypedValue) {
        self
    }
}

impl IntoTyped for String {
    open spec fn typed(self) -> Typed {
        Typed::String(self@)
    }

    fn into_typed(self) -> (r: TypedValue) {
        TypedValue::String(self)
    }
}

impl IntoTyped for &str {
    open spec fn typed(self) -> Typed {
        Typed::String(self@)
    }

    fn into_typed(self) -> (r: TypedValue) {
        TypedValue::String(self.to_owned())
    }
}

impl IntoTyped for i64 {
    open spec fn typed(self) -> Typed {
        Typed::Int(self as int)
    }

    fn into_typed(self) -> (r: TypedValue) {
        TypedValue::Int(self)
    }
}

impl IntoTyped for i32 {
    open spec fn typed(self) -> Typed {
        Typed::Int(self as int)
    }

    fn into_typed(self) -> (r: TypedValue) {
        TypedValue::Int(self as i64)
    }
}

impl IntoTyped for u32 {
    open spec fn typed(self) -> Typed {
        Typed::Int(self as int)
    }

    fn into_typed(self) -> (r: TypedValue) {
        TypedValue::Int(self as i64)
    }
}

impl IntoTyped for usize {
    /// Taken modulo 2^64 into the signed range.
    open spec fn typed(self) -> Typed {
        if self <= i64::MAX {
            Typed::Int(self as int)
        } else {
            Typed::Int(self - 0x1_0000_0000_0000_0000)
        }
    }

    fn into_typed(self) -> (r: TypedValue) {
        let n: u64 = self as u64;
        if n <= i64::MAX as u64 {
            TypedValue::Int(n as i64)
        } else {
            TypedValue::Int(-1 - ((u64::MAX - n) as i64))
        }
    }
}

impl IntoTyped for bool {
    open spec fn typed(self) -> Typed {
        Typed::Boolean(self)
    }

    fn into_typed(self) -> (r: TypedValue) {
        TypedValue::Boolean(self)
    }
}

impl IntoTyped for Decimal {
    open spec fn typed(self) -> Typed {
        Typed::Float(self@)
    }

    fn into_typed(self) -> (r: TypedValue) {
        TypedValue::Float(self)
    }
}

} // verus!
