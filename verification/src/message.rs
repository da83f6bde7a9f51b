//! FIX messages as flat lists of tags: parsing and serialisation.
//!
//! A [`FixMessage`] is the message's byte buffer plus an ordered list of
//! `(tag, `[`Value`]`)` pairs. A value that was parsed is a slice of the buffer;
//! one that was built is owned. There is no field-ordering, repeating-group or
//! duplicate-tag bookkeeping: that is what [`crate::builder`] is for.

use std::sync::Arc;

use bytes::Bytes;
use vstd::prelude::*;
use vstd::slice::{slice_subrange, slice_to_vec};
use vstd::string::*;
use vstd::utf8::*;

use crate::buffer::{bytes_clone, bytes_of, bytes_slice};
use crate::repository::FixVersion;
use crate::text::{shown_text, text_eq, utf8_lossy, utf8_text, ParseIntError, ParseInteger};

verus! {

broadcast use vstd::string::group_string_axioms;

// ---------------------------------------------------------------------------
// Values
// ---------------------------------------------------------------------------

/// A stretch of a message's buffer.
#[derive(Clone, Copy, Debug, PartialEq, Eq, Structural)]
pub struct ValRef {
    pub start: usize,
    pub len: usize,
}

impl ValRef {
    /// The stretch lies within a buffer of `n` bytes.
    pub open spec fn in_range(&self, n: nat) -> bool {
        self.start + self.len <= n
    }

    pub open spec fn slice(&self, data: Seq<u8>) -> Seq<u8> {
        data.subrange(self.start as int, self.start + self.len)
    }

    pub fn as_str<'a>(&self, data: &'a [u8]) -> (r: &'a str)
        requires
            self.in_range(data@.len()),
            valid_utf8(self.slice(data@)),
        ensures
            r@ == decode_utf8(self.slice(data@)),
    {
        utf8_text(self.as_bytes(data)).unwrap()
    }

    pub fn as_bytes<'a>(&self, data: &'a [u8]) -> (r: &'a [u8])
        requires
            self.in_range(data@.len()),
        ensures
            r@ == self.slice(data@),
    {
        let n: usize = data.len();
        assert(self.start + self.len <= n);
        slice_subrange(data, self.start, self.start + self.len)
    }
}

/// Represents a FIX field value
///
/// FIX Protocol requires that field values are US-ASCII except raw data fields
/// (type="data"), which can contain arbitrary binary data.
#[derive(Debug, PartialEq, Eq)]
pub enum Value {
    /// Reference to a string value in the message buffer (US-ASCII)
    StringRef(ValRef),
    /// Owned string value (US-ASCII)
    String(String),
    /// Reference to raw binary data in the message buffer (arbitrary bytes)
    DataRef(ValRef),
    /// Owned raw binary data (arbitrary bytes)
    Data(Vec<u8>),
}

/// What a value says by itself, with what it owns taken by its contents.
pub ghost enum ValueView {
    StringRef(ValRef),
    String(Seq<char>),
    DataRef(ValRef),
    Data(Seq<u8>),
}

impl View for Value {
    type V = ValueView;

    open spec fn view(&self) -> ValueView {
        match self {
            Value::StringRef(v) => ValueView::StringRef(*v),
            Value::String(s) => ValueView::String(s@),
            Value::DataRef(v) => ValueView::DataRef(*v),
            Value::Data(v) => ValueView::Data(v@),
        }
    }
}

impl ValueView {
    /// The value lies within a buffer of `n` bytes.
    pub open spec fn in_range(self, n: nat) -> bool {
        match self {
            ValueView::StringRef(v) => v.in_range(n),
            ValueView::DataRef(v) => v.in_range(n),
            _ => true,
        }
    }

    pub open spec fn is_data(self) -> bool {
        self is DataRef || self is Data
    }

    pub open spec fn is_empty(self) -> bool {
        match self {
            ValueView::StringRef(v) => v.len == 0,
            ValueView::String(s) => s.len() == 0,
            ValueView::DataRef(v) => v.len == 0,
            ValueView::Data(v) => v.len() == 0,
        }
    }

    /// The bytes of the value, in a message with this buffer.
    pub open spec fn bytes(self, data: Seq<u8>) -> Seq<u8> {
        match self {
            ValueView::StringRef(v) => v.slice(data),
            ValueView::String(s) => encode_utf8(s),
            ValueView::DataRef(v) => v.slice(data),
            ValueView::Data(v) => v,
        }
    }

    /// The value is text: in range, and well-formed UTF-8.
    pub open spec fn is_text(self, data: Seq<u8>) -> bool {
        match self {
            ValueView::StringRef(v) => v.in_range(data.len()) && valid_utf8(v.slice(data)),
            ValueView::String(_) => true,
            _ => false,
        }
    }

    pub open spec fn text(self, data: Seq<u8>) -> Seq<char> {
        match self {
            ValueView::StringRef(v) => decode_utf8(v.slice(data)),
            ValueView::String(s) => s,
            _ => arbitrary(),
        }
    }

    /// The value as a `String`; what is no well-formed text is decoded as far
    /// as it can be.
    pub open spec fn shown(self, data: Seq<u8>) -> Seq<char> {
        match self {
            ValueView::String(s) => s,
            _ => shown_text(self.bytes(data)),
        }
    }
}

impl Default for Value {
    fn default() -> (r: Self)
        ensures
            r@ == ValueView::String(Seq::<char>::empty()),
    {
        Value::String(String::new())
    }
}

impl Clone for Value {
    fn clone(&self) -> (r: Self)
        ensures
            r@ == self@,
    {
        match self {
            Value::StringRef(v) => Value::StringRef(*v),
            Value::String(s) => Value::String(s.clone()),
            Value::DataRef(v) => Value::DataRef(*v),
            Value::Data(v) => Value::Data(slice_to_vec(v.as_slice())),
        }
    }
}

impl From<String> for Value {
    fn from(s: String) -> (r: Self) {
        Value::String(s)
    }
}

impl vstd::std_specs::convert::FromSpecImpl<String> for Value {
    open spec fn obeys_from_spec() -> bool {
        true
    }

    open spec fn from_spec(s: String) -> Self {
        Value::String(s)
    }
}

impl Value {
    /// Convert value to String. What is no well-formed text is converted to
    /// lossy UTF-8.
    pub fn to_string(&self, data: &[u8]) -> (r: String)
        requires
            self@.in_range(data@.len()),
        ensures
            r@ == self@.shown(data@),
    {
        match self {
            Value::StringRef(v) => utf8_lossy(v.as_bytes(data)),
            Value::String(v) => v.clone(),
            Value::DataRef(v) => utf8_lossy(v.as_bytes(data)),
            Value::Data(v) => utf8_lossy(v.as_slice()),
        }
    }

    /// Get value as string slice. Only for values that are text.
    pub fn as_str<'a>(&'a self, data: &'a [u8]) -> (r: &'a str)
        requires
            self@.is_text(data@),
        ensures
            r@ == self@.text(data@),
    {
        match self {
            Value::StringRef(v) => v.as_str(data),
            Value::String(v) => v.as_str(),
            _ => unreached(),
        }
    }

    /// Get value as byte slice. Works for all variants.
    pub fn as_bytes<'a>(&'a self, data: &'a [u8]) -> (r: &'a [u8])
        requires
            self@.in_range(data@.len()),
        ensures
            r@ == self@.bytes(data@),
    {
        match self {
            Value::StringRef(v) => v.as_bytes(data),
            Value::String(v) => v.as_str().as_bytes(),
            Value::DataRef(v) => v.as_bytes(data),
            Value::Data(v) => v.as_slice(),
        }
    }

    /// Parse value as integer. Only works for string variants.
    pub fn parse<T: ParseInteger>(&self, data: &[u8]) -> (r: std::result::Result<T, ParseIntError>)
        requires
            self@.is_text(data@),
        ensures
            r == T::parsed(self@.bytes(data@)),
    {
        T::parse_integer(self.as_bytes(data))
    }

    pub fn is_empty(&self) -> (r: bool)
        ensures
            r == self@.is_empty(),
    {
        match self {
            Value::StringRef(v) => v.len == 0,
            Value::String(v) => v.as_str().is_empty(),
            Value::DataRef(v) => v.len == 0,
            Value::Data(v) => v.len() == 0,
        }
    }

    /// Returns true if this is a Data or DataRef variant (raw binary data)
    pub fn is_data(&self) -> (r: bool)
        ensures
            r == self@.is_data(),
    {
        matches!(self, Value::DataRef(_) | Value::Data(_))
    }

    /// Whether the value lies within `data`.
    pub fn fits(&self, data: &[u8]) -> (r: bool)
        ensures
            r == self@.in_range(data@.len()),
    {
        match self {
            Value::StringRef(v) => v.start <= data.len() && v.len <= data.len() - v.start,
            Value::DataRef(v) => v.start <= data.len() && v.len <= data.len() - v.start,
            _ => true,
        }
    }

    /// Whether the value is text: in range, and well-formed UTF-8.
    pub fn readable(&self, data: &[u8]) -> (r: bool)
        ensures
            r == self@.is_text(data@),
    {
        match self {
            Value::StringRef(v) => self.fits(data) && utf8_text(v.as_bytes(data)).is_some(),
            Value::String(_) => true,
            _ => false,
        }
    }
}

// ---------------------------------------------------------------------------
// Messages
// ---------------------------------------------------------------------------

pub type TagValue = (u32, Value);

#[derive(Debug)]
pub struct FixMessage {
    pub fix_version: Arc<FixVersion>,
    pub data: Bytes,
    pub tags: Vec<TagValue>,
}

/// A list of tags with their values, as a message holds it.
pub type Tags = Seq<(u32, ValueView)>;

/// The tags of a message with the values taken by what they say.
pub open spec fn tags_view(tags: Seq<(u32, Value)>) -> Tags {
    tags.map_values(|t: (u32, Value)| (t.0, t.1@))
}

/// The first position from `i` on with this tag, or the number of tags.
pub open spec fn first_tag(tags: Tags, tag: u32, i: int) -> int
    decreases tags.len() - i,
{
    if i < 0 || i >= tags.len() {
        tags.len() as int
    } else if tags[i].0 == tag {
        i
    } else {
        first_tag(tags, tag, i + 1)
    }
}

pub proof fn lemma_first_tag(tags: Tags, tag: u32, i: int)
    requires
        0 <= i <= tags.len(),
    ensures
        i <= first_tag(tags, tag, i) <= tags.len(),
        first_tag(tags, tag, i) < tags.len() ==> tags[first_tag(tags, tag, i)].0 == tag,
        forall|k: int| i <= k < first_tag(tags, tag, i) ==> (#[trigger] tags[k]).0 != tag,
    decreases tags.len() - i,
{
    if i < tags.len() && tags[i].0 != tag {
        lemma_first_tag(tags, tag, i + 1);
    }
}

/// A position is known by what it means.
pub proof fn lemma_first_tag_is(tags: Tags, tag: u32, i: int, p: int)
    requires
        0 <= i <= p <= tags.len(),
        p < tags.len() ==> tags[p].0 == tag,
        forall|k: int| i <= k < p ==> (#[trigger] tags[k]).0 != tag,
    ensures
        first_tag(tags, tag, i) == p,
    decreases p - i,
{
    if i < p {
        assert(tags[i].0 != tag);
        lemma_first_tag_is(tags, tag, i + 1, p);
    }
}

/// The value of the first field with this tag.
pub open spec fn tag_value(tags: Tags, tag: u32) -> Option<ValueView> {
    let i = first_tag(tags, tag, 0);
    if i < tags.len() {
        Some(tags[i].1)
    } else {
        None
    }
}

/// A message by what it says: the tags in order, over a buffer.
pub ghost struct MessageView {
    pub fix_version: FixVersion,
    pub data: Seq<u8>,
    pub tags: Tags,
}

impl View for FixMessage {
    type V = MessageView;

    open spec fn view(&self) -> MessageView {
        MessageView {
            fix_version: *self.fix_version,
            data: bytes_of(self.data),
            tags: tags_view(self.tags@),
        }
    }
}

/// The session layer's own message types, which no application sees.
pub open spec fn admin_type(t: Seq<char>) -> bool {
    t == "0"@ || t == "A"@ || t == "1"@ || t == "2"@ || t == "3"@ || t == "4"@ || t == "5"@ || t
        == "j"@ || t == "h"@ || t == "Y"@ || t == "V"@
}

pub fn is_admin_type(t: &str) -> (r: bool)
    ensures
        r == admin_type(t@),
{
    text_eq(t, "0") || text_eq(t, "A") || text_eq(t, "1") || text_eq(t, "2") || text_eq(t, "3")
        || text_eq(t, "4") || text_eq(t, "5") || text_eq(t, "j") || text_eq(t, "h") || text_eq(
        t,
        "Y",
    ) || text_eq(t, "V")
}

/// Tags that frame a message rather than being written among its fields.
pub open spec fn is_framing(tag: u32) -> bool {
    tag == 8 || tag == 9 || tag == 10 || tag == 35
}

impl MessageView {
    /// Every value lies within the buffer.
    pub open spec fn in_range(self) -> bool {
        forall|i: int| 0 <= i < self.tags.len() ==> (#[trigger] self.tags[i]).1.in_range(
            self.data.len(),
        )
    }

    pub open spec fn value(self, tag: u32) -> Option<ValueView> {
        tag_value(self.tags, tag)
    }

    /// The first field with this tag, if there is one, is text.
    pub open spec fn text_at(self, tag: u32) -> bool {
        self.value(tag) matches Some(v) ==> v.is_text(self.data)
    }

    /// Every value lies within the buffer, and the message type is text.
    pub open spec fn is_readable(self) -> bool {
        self.in_range() && self.text_at(35)
    }

    pub open spec fn msg_type(self) -> Seq<char> {
        match self.value(35) {
            Some(v) => v.text(self.data),
            None => ""@,
        }
    }

    pub open spec fn begin_string(self) -> Seq<char> {
        match self.value(8) {
            Some(v) => v.text(self.data),
            None => self.fix_version.begin_string@,
        }
    }
}

impl FixMessage {
    pub fn new(fix_version: Arc<FixVersion>) -> (r: Self)
        ensures
            r.fix_version == fix_version,
            r.tags@.len() == 0,
            bytes_of(r.data) == Seq::<u8>::empty(),
    {
        FixMessage { fix_version, data: Bytes::new(), tags: Vec::new() }
    }

    pub fn of_type(fix: Arc<FixVersion>, msg_type: &str) -> (r: Self)
        ensures
            r.fix_version == fix,
            r@.data == Seq::<u8>::empty(),
            r@.tags == seq![
                (8u32, ValueView::String(fix.begin_string@)),
                (35u32, ValueView::String(msg_type@)),
            ],
    {
        let begin_string = fix.begin_string.clone();
        let mut msg = FixMessage::new(fix);
        msg.tags.push((8, Value::String(begin_string)));
        msg.tags.push((35, Value::String(msg_type.to_owned())));
        assert(msg@.tags =~= seq![
            (8u32, ValueView::String(fix.begin_string@)),
            (35u32, ValueView::String(msg_type@)),
        ]);
        msg
    }

    /// Another message that says the same.
    pub fn duplicate(&self) -> (r: Self)
        ensures
            r@ == self@,
            r.fix_version == self.fix_version,
    {
        let mut tags: Vec<TagValue> = Vec::new();
        let mut i: usize = 0;
        while i < self.tags.len()
            invariant
                i <= self.tags@.len(),
                tags_view(tags@) == tags_view(self.tags@).take(i as int),
            decreases self.tags@.len() - i,
        {
            let value = self.tags[i].1.clone();
            assert(value@ == self.tags@[i as int].1@);
            let ghost before = tags@;
            tags.push((self.tags[i].0, value));
            i += 1;
            assert(tags_view(tags@) =~= tags_view(before).push(tags_view(self.tags@)[i - 1]));
            assert(tags_view(tags@) =~= tags_view(self.tags@).take(i as int));
        }
        assert(tags_view(tags@) =~= tags_view(self.tags@));
        FixMessage {
            fix_version: self.fix_version.clone(),
            data: bytes_clone(&self.data),
            tags,
        }
    }

    pub fn is_complete(&self) -> (r: bool)
        ensures
            r == (self.tags@.len() > 0 && self.tags@.first().0 == 8 && self.tags@.last().0 == 10),
    {
        let n: usize = self.tags.len();
        n > 0 && self.tags[0].0 == 8 && self.tags[n - 1].0 == 10
    }

    /// The position of the first field with this tag.
    pub fn find_tag(&self, tag: u32) -> (r: Option<usize>)
        ensures
            match r {
                Some(i) => i < self.tags@.len() && i == first_tag(self@.tags, tag, 0),
                None => first_tag(self@.tags, tag, 0) == self.tags@.len(),
            },
    {
        let mut i: usize = 0;
        while i < self.tags.len()
            invariant
                i <= self.tags@.len(),
                first_tag(self@.tags, tag, 0) == first_tag(self@.tags, tag, i as int),
            decreases self.tags@.len() - i,
        {
            if self.tags[i].0 == tag {
                return Some(i);
            }
            i += 1;
        }
        None
    }

    /// The value of the first field with this tag.
    pub fn get_tag(&self, tag: u32) -> (r: Option<&Value>)
        ensures
            match r {
                Some(v) => self@.value(tag) == Some(v@),
                None => self@.value(tag) is None,
            },
    {
        match self.find_tag(tag) {
            Some(i) => Some(&self.tags[i].1),
            None => None,
        }
    }

    pub fn get_being_string(&self) -> (r: &str)
        requires
            self@.text_at(8),
        ensures
            r@ == self@.begin_string(),
    {
        match self.get_tag(8) {
            Some(v) => v.as_str(bytes_slice(&self.data)),
            None => self.fix_version.begin_string.as_str(),
        }
    }

    pub fn get_type(&self) -> (r: &str)
        requires
            self@.text_at(35),
        ensures
            r@ == self@.msg_type(),
    {
        match self.get_tag(35) {
            Some(v) => v.as_str(bytes_slice(&self.data)),
            None => "",
        }
    }

    pub fn is_admin_message(&self) -> (r: bool)
        requires
            self@.text_at(35),
        ensures
            r == admin_type(self@.msg_type()),
    {
        is_admin_type(self.get_type())
    }

    /// Whether every value lies within the buffer, and the message type is
    /// text.
    pub fn readable(&self) -> (r: bool)
        ensures
            r == self@.is_readable(),
    {
        let data = bytes_slice(&self.data);
        if let Some(v) = self.get_tag(35) {
            if !v.readable(data) {
                return false;
            }
        }
        let mut i: usize = 0;
        while i < self.tags.len()
            invariant
                data@ == self@.data,
                i <= self.tags@.len(),
                forall|k: int| 0 <= k < i ==> (#[trigger] self@.tags[k]).1.in_range(data@.len()),
            decreases self.tags@.len() - i,
        {
            if !self.tags[i].1.fits(data) {
                assert(!self@.tags[i as int].1.in_range(data@.len()));
                return false;
            }
            i += 1;
        }
        true
    }
}

/// The value of a tag is that of the first field with it, and there is none where
/// no field has it.
pub proof fn law_which_field_counts(m: MessageView, tag: u32, i: int)
    requires
        0 <= i < m.tags.len(),
    ensures
        m.tags[i].0 == tag && (forall|k: int| 0 <= k < i ==> (#[trigger] m.tags[k]).0 != tag)
            ==> m.value(tag) == Some(m.tags[i].1),
        (forall|k: int| 0 <= k < m.tags.len() ==> (#[trigger] m.tags[k]).0 != tag) ==> m.value(tag)
            is None,
{
    lemma_first_tag(m.tags, tag, 0);
    if m.tags[i].0 == tag && (forall|k: int| 0 <= k < i ==> (#[trigger] m.tags[k]).0 != tag) {
        lemma_first_tag_is(m.tags, tag, 0, i);
    }
}

/// The type of a message is the text of its MsgType, and nothing where it has
/// none; its BeginString is the text of that field, and that of its version where
/// it has none.
pub proof fn law_what_a_message_is(m: MessageView)
    ensures
        m.value(35) is None ==> m.msg_type() == ""@,
        m.value(35) matches Some(v) ==> m.msg_type() == v.text(m.data),
        m.value(8) is None ==> m.begin_string() == m.fix_version.begin_string@,
        m.value(8) matches Some(v) ==> m.begin_string() == v.text(m.data),
{
}

/// The types of the session's own messages.
pub proof fn law_which_types_are_the_sessions(t: Seq<char>)
    ensures
        admin_type(t) <==> t == "0"@ || t == "1"@ || t == "2"@ || t == "3"@ || t == "4"@ || t
            == "5"@ || t == "A"@ || t == "V"@ || t == "Y"@ || t == "h"@ || t == "j"@,
{
}

/// What a value is: the text or the bytes that it holds, or those that it points
/// to.
pub proof fn law_what_a_value_is(s: Seq<char>, b: Seq<u8>, r: ValRef, data: Seq<u8>)
    requires
        r.start + r.len <= data.len(),
    ensures
        ValueView::String(s).bytes(data) == encode_utf8(s),
        ValueView::Data(b).bytes(data) == b,
        ValueView::StringRef(r).bytes(data) == data.subrange(r.start as int, r.start + r.len),
        ValueView::DataRef(r).bytes(data) == data.subrange(r.start as int, r.start + r.len),
        ValueView::String(s).text(data) == s,
        valid_utf8(data.subrange(r.start as int, r.start + r.len)) ==> encode_utf8(
            ValueView::StringRef(r).text(data),
        ) == data.subrange(r.start as int, r.start + r.len),
        ValueView::String(s).shown(data) == s,
        ValueView::StringRef(r).shown(data) == shown_text(
            data.subrange(r.start as int, r.start + r.len),
        ),
        ValueView::DataRef(r).shown(data) == shown_text(
            data.subrange(r.start as int, r.start + r.len),
        ),
        ValueView::Data(b).shown(data) == shown_text(b),
        ValueView::String(s).is_empty() <==> s.len() == 0,
        ValueView::Data(b).is_empty() <==> b.len() == 0,
        ValueView::StringRef(r).is_empty() <==> r.len == 0,
        ValueView::DataRef(r).is_empty() <==> r.len == 0,
        ValueView::Data(b).is_data() && ValueView::DataRef(r).is_data(),
        !ValueView::String(s).is_data() && !ValueView::StringRef(r).is_data(),
{
    let stretch = data.subrange(r.start as int, r.start + r.len);
    if valid_utf8(stretch) {
        decode_utf8_encode_utf8(stretch);
    }
}

} // verus!
