//! GGUF v3 weight source: parses the container and exposes tensors via [`WeightSource`].

use vstd::prelude::*;
use vstd::string::*;
use vstd::utf8::*;

use crate::bytes::{
    as_signed16, as_signed32, as_signed64, as_signed8, le16, le32, le64, read16, read32, read64,
    signed16, signed32, signed64, signed8, to_bytes, words_bytes,
};
use crate::config::{Config, ConfigView, DEFAULT_ROPE_THETA};
use crate::dequant::{dequant, dequantized};
use crate::error::{seen, ErrorView, EyebrowseError, Result};
use crate::float::{from_signed, from_unsigned, narrow, narrowed, of_int};
use crate::json::{null_contents, null_document};
use crate::shape::{count, countable, lemma_numel_reverse, numel};
use crate::source::{layer_name, RawDType, RawTensor, RawView, WeightSource};
use crate::table::{
    entry, is_sorted, lemma_entry, lemma_same_members, lemma_sorted, position, sort_names, sorted,
    texts,
};
use crate::text::{
    begins, cat2, cat3, dec, decimal, ends, find, first_of, is_index, lemma_dec, lemma_first_of,
    reads_as_index, same, strip_prefix, strip_suffix, text_of_utf8, utf8_refusal,
};

verus! {

/// The four bytes `GGUF`, read as a little-endian word.
pub const GGUF_MAGIC: u32 = 0x4655_4747;

/// A metadata value, normalized to the few shapes the configuration needs. Real numbers are kept
/// as the codes that the file holds.
#[derive(Debug)]
pub enum MetaValue {
    U64(u64),
    I64(i64),
    Single(u32),
    Double(u64),
    String(String),
    Array(Vec<MetaValue>),
}

/// A [`MetaValue`] with its text and its items as sequences.
pub enum MetaView {
    U64(u64),
    I64(i64),
    Single(u32),
    Double(u64),
    Text(Seq<char>),
    Items(Seq<MetaView>),
}

impl MetaValue {
    /// The value with its text and its items as sequences.
    pub open spec fn model(self) -> MetaView
        decreases self,
    {
        match self {
            MetaValue::U64(v) => MetaView::U64(v),
            MetaValue::I64(v) => MetaView::I64(v),
            MetaValue::Single(v) => MetaView::Single(v),
            MetaValue::Double(v) => MetaView::Double(v),
            MetaValue::String(s) => MetaView::Text(s@),
            MetaValue::Array(items) => MetaView::Items(
                Seq::new(
                    items@.len(),
                    |i: int|
                        if 0 <= i < items@.len() {
                            items@[i].model()
                        } else {
                            arbitrary()
                        },
                ),
            ),
        }
    }
}

impl View for MetaValue {
    type V = MetaView;

    open spec fn view(&self) -> MetaView {
        self.model()
    }
}

/// The values of `items`, by their views.
pub open spec fn item_views(items: Seq<MetaValue>) -> Seq<MetaView> {
    items.map_values(|v: MetaValue| v@)
}

proof fn lemma_array_view(items: Vec<MetaValue>)
    ensures
        MetaValue::Array(items)@ == MetaView::Items(item_views(items@)),
{
    let v = MetaValue::Array(items);
    assert(v.model() is Items);
    assert(v.model()->Items_0 =~= item_views(items@));
}

/// The unsigned integer that a value is, if it is one and not negative.
pub open spec fn meta_u64(v: MetaView) -> Option<u64> {
    match v {
        MetaView::U64(n) => Some(n),
        MetaView::I64(n) => if n >= 0 {
            Some(n as u64)
        } else {
            None
        },
        _ => None,
    }
}

/// The single-precision code nearest to a number.
pub open spec fn meta_f32(v: MetaView) -> Option<u32> {
    match v {
        MetaView::Single(b) => Some(b),
        MetaView::Double(b) => Some(narrowed(b)),
        MetaView::U64(n) => Some(of_int(n as int)),
        MetaView::I64(n) => Some(of_int(n as int)),
        _ => None,
    }
}

/// The text that a value is.
pub open spec fn meta_text(v: MetaView) -> Option<Seq<char>> {
    match v {
        MetaView::Text(s) => Some(s),
        _ => None,
    }
}

impl MetaValue {
    fn as_u64(&self) -> (r: Option<u64>)
        ensures
            r == meta_u64(self@),
    {
        match self {
            MetaValue::U64(v) => Some(*v),
            MetaValue::I64(v) => if *v >= 0 {
                Some(*v as u64)
            } else {
                None
            },
            _ => None,
        }
    }

    fn as_f32(&self) -> (r: Option<u32>)
        ensures
            r == meta_f32(self@),
    {
        match self {
            MetaValue::Single(v) => Some(*v),
            MetaValue::Double(v) => Some(narrow(*v)),
            MetaValue::U64(v) => Some(from_unsigned(*v)),
            MetaValue::I64(v) => Some(from_signed(*v)),
            _ => None,
        }
    }

    fn as_str(&self) -> (r: Option<&str>)
        ensures
            match r {
                Some(s) => meta_text(self@) == Some(s@),
                None => meta_text(self@) is None,
            },
    {
        match self {
            MetaValue::String(s) => Some(s.as_str()),
            _ => None,
        }
    }
}

/// What reading at a position gives: a value and the position after it.
pub type Parsed<T> = std::result::Result<(T, int), ErrorView>;

/// The error of a file that ends too early.
pub open spec fn truncated() -> ErrorView {
    ErrorView::Load("GGUF truncated"@)
}

/// The byte at `p`.
pub open spec fn byte_at(b: Seq<u8>, p: int) -> Parsed<u8> {
    if p + 1 > b.len() {
        Err(truncated())
    } else {
        Ok((b[p], p + 1))
    }
}

/// The 32-bit integer at `p`.
pub open spec fn word_at(b: Seq<u8>, p: int) -> Parsed<u32> {
    if p + 4 > b.len() {
        Err(truncated())
    } else {
        Ok((le32(b, p), p + 4))
    }
}

/// The 64-bit integer at `p`.
pub open spec fn long_at(b: Seq<u8>, p: int) -> Parsed<u64> {
    if p + 8 > b.len() {
        Err(truncated())
    } else {
        Ok((le64(b, p), p + 8))
    }
}

/// The text at `p`: its length in bytes, then its bytes.
pub open spec fn string_at(b: Seq<u8>, p: int) -> Parsed<Seq<char>> {
    match long_at(b, p) {
        Err(e) => Err(e),
        Ok((n, q)) => {
            let end = q + (n as usize);
            if end > b.len() {
                Err(truncated())
            } else if valid_utf8(b.subrange(q, end)) {
                Ok((decode_utf8(b.subrange(q, end)), end))
            } else {
                Err(
                    ErrorView::Load(
                        "GGUF non-utf8 string: "@ + utf8_refusal(b.subrange(q, end)),
                    ),
                )
            }
        },
    }
}

/// A position in the bytes of a file.
pub struct Cursor<'a> {
    pub data: &'a [u8],
    pub pos: usize,
}

/// Whether reading from `before` gave what it had to: the value and the position after it, or the
/// error and the position `stop` at which the reading stopped.
pub open spec fn reads<T: View>(
    before: Cursor<'_>,
    after: Cursor<'_>,
    r: Result<T>,
    want: Parsed<T::V>,
    stop: int,
) -> bool {
    &&& after.data == before.data
    &&& match r {
        Ok(v) => want == Ok::<(T::V, int), ErrorView>((v@, after.pos as int)),
        Err(e) => want == Err::<(T::V, int), ErrorView>(e@) && after.pos == stop,
    }
}

impl<'a> Cursor<'a> {
    pub fn new(data: &'a [u8]) -> (r: Self)
        ensures
            r.data == data,
            r.pos == 0,
    {
        Cursor { data, pos: 0 }
    }

    /// Whether the position lies in the file.
    pub open spec fn wf(self) -> bool {
        self.pos <= self.data@.len()
    }

    pub fn need(&self, n: usize) -> (r: Result<()>)
        ensures
            match r {
                Ok(_) => self.pos + n <= self.data@.len(),
                Err(e) => self.pos + n > self.data@.len() && e@ == truncated(),
            },
    {
        if n > self.data.len() || self.pos > self.data.len() - n {
            return Err(EyebrowseError::Load("GGUF truncated".to_owned()));
        }
        Ok(())
    }

    pub fn u8(&mut self) -> (r: Result<u8>)
        ensures
            reads(
                *old(self),
                *final(self),
                r,
                byte_at(old(self).data@, old(self).pos as int),
                old(self).pos as int,
            ),
    {
        match self.need(1) {
            Ok(_) => {},
            Err(e) => return Err(e),
        }
        assert(self.data@.len() == self.data.len());
        let v = self.data[self.pos];
        self.pos = self.pos + 1;
        Ok(v)
    }

    pub fn u32(&mut self) -> (r: Result<u32>)
        ensures
            reads(
                *old(self),
                *final(self),
                r,
                word_at(old(self).data@, old(self).pos as int),
                old(self).pos as int,
            ),
    {
        match self.need(4) {
            Ok(_) => {},
            Err(e) => return Err(e),
        }
        assert(self.data@.len() == self.data.len());
        let v = read32(self.data, self.pos);
        self.pos = self.pos + 4;
        Ok(v)
    }

    pub fn u64(&mut self) -> (r: Result<u64>)
        ensures
            reads(
                *old(self),
                *final(self),
                r,
                long_at(old(self).data@, old(self).pos as int),
                old(self).pos as int,
            ),
    {
        match self.need(8) {
            Ok(_) => {},
            Err(e) => return Err(e),
        }
        assert(self.data@.len() == self.data.len());
        let v = read64(self.data, self.pos);
        self.pos = self.pos + 8;
        Ok(v)
    }

    pub fn string(&mut self) -> (r: Result<String>)
        ensures
            reads(
                *old(self),
                *final(self),
                r,
                string_at(old(self).data@, old(self).pos as int),
                string_stop(old(self).data@, old(self).pos as int),
            ),
    {
        let len = match self.u64() {
            Ok(n) => n as usize,
            Err(e) => return Err(e),
        };
        match self.need(len) {
            Ok(_) => {},
            Err(e) => return Err(e),
        }
        assert(self.data@.len() == self.data.len());
        let end = self.pos + len;
        let s = match text_of_utf8(&self.data[self.pos..end]) {
            Ok(s) => s,
            Err(words) => {
                return Err(EyebrowseError::Load(cat2("GGUF non-utf8 string: ", words.as_str())));
            },
        };
        self.pos = end;
        Ok(s)
    }
}

/// Where the reading of a text at `p` stops when it fails: before the length where the length is
/// cut off, behind it otherwise.
pub open spec fn string_stop(b: Seq<u8>, p: int) -> int {
    if p + 8 > b.len() {
        p
    } else {
        p + 8
    }
}

/// The 16-bit integer at `p`.
pub open spec fn short_at(b: Seq<u8>, p: int) -> Parsed<u16> {
    if p + 2 > b.len() {
        Err(truncated())
    } else {
        Ok((le16(b, p), p + 2))
    }
}

/// The value of type `value_type` at `p`.
pub open spec fn value_at(b: Seq<u8>, p: int, value_type: u32) -> Parsed<MetaView>
    decreases b.len() - p, 0nat, 0nat,
{
    if value_type == 0 {
        match byte_at(b, p) {
            Ok((v, q)) => Ok((MetaView::U64(v as u64), q)),
            Err(e) => Err(e),
        }
    } else if value_type == 1 {
        match byte_at(b, p) {
            Ok((v, q)) => Ok((MetaView::I64(signed8(v) as i64), q)),
            Err(e) => Err(e),
        }
    } else if value_type == 2 {
        match short_at(b, p) {
            Ok((v, q)) => Ok((MetaView::U64(v as u64), q)),
            Err(e) => Err(e),
        }
    } else if value_type == 3 {
        match short_at(b, p) {
            Ok((v, q)) => Ok((MetaView::I64(signed16(v) as i64), q)),
            Err(e) => Err(e),
        }
    } else if value_type == 4 {
        match word_at(b, p) {
            Ok((v, q)) => Ok((MetaView::U64(v as u64), q)),
            Err(e) => Err(e),
        }
    } else if value_type == 5 {
        match word_at(b, p) {
            Ok((v, q)) => Ok((MetaView::I64(signed32(v) as i64), q)),
            Err(e) => Err(e),
        }
    } else if value_type == 6 {
        match word_at(b, p) {
            Ok((v, q)) => Ok((MetaView::Single(v), q)),
            Err(e) => Err(e),
        }
    } else if value_type == 7 {
        match byte_at(b, p) {
            Ok((v, q)) => Ok((MetaView::U64(if v != 0 { 1 } else { 0 }), q)),
            Err(e) => Err(e),
        }
    } else if value_type == 8 {
        match string_at(b, p) {
            Ok((v, q)) => Ok((MetaView::Text(v), q)),
            Err(e) => Err(e),
        }
    } else if value_type == 9 {
        match word_at(b, p) {
            Err(e) => Err(e),
            Ok((element_type, q)) => match long_at(b, q) {
                Err(e) => Err(e),
                Ok((n, start)) => match items_at(b, start, element_type, (n as usize) as nat) {
                    Err(e) => Err(e),
                    Ok((items, end)) => Ok((MetaView::Items(items), end)),
                },
            },
        }
    } else if value_type == 10 {
        match long_at(b, p) {
            Ok((v, q)) => Ok((MetaView::U64(v), q)),
            Err(e) => Err(e),
        }
    } else if value_type == 11 {
        match long_at(b, p) {
            Ok((v, q)) => Ok((MetaView::I64(signed64(v) as i64), q)),
            Err(e) => Err(e),
        }
    } else if value_type == 12 {
        match long_at(b, p) {
            Ok((v, q)) => Ok((MetaView::Double(v), q)),
            Err(e) => Err(e),
        }
    } else {
        Err(ErrorView::Load("GGUF unknown metadata value type "@ + dec(value_type as nat)))
    }
}

/// The `n` values of type `element_type` in a row at `p`. A value never ends before it begins or
/// after the end of the file.
pub open spec fn items_at(b: Seq<u8>, p: int, element_type: u32, n: nat) -> Parsed<Seq<MetaView>>
    decreases b.len() - p, 1nat, n,
{
    if n == 0 {
        Ok((seq![], p))
    } else {
        match items_at(b, p, element_type, (n - 1) as nat) {
            Err(e) => Err(e),
            Ok((items, q)) => if p <= q <= b.len() {
                match value_at(b, q, element_type) {
                    Err(e) => Err(e),
                    Ok((v, end)) => Ok((items.push(v), end)),
                }
            } else {
                Err(truncated())
            },
        }
    }
}

/// Where the reading of a value of type `value_type` at `p` stops when it fails. A number that is
/// cut off and a value of an unknown type leave the position where it was.
pub open spec fn value_stop(b: Seq<u8>, p: int, value_type: u32) -> int
    decreases b.len() - p, 0nat, 0nat,
{
    if value_type == 8 {
        string_stop(b, p)
    } else if value_type == 9 && p + 12 <= b.len() {
        items_stop(b, p + 12, le32(b, p), (le64(b, p + 4) as usize) as nat)
    } else if value_type == 9 && p + 4 <= b.len() {
        p + 4
    } else {
        p
    }
}

/// Where the reading of `n` values in a row at `p` stops when it fails: where the first value that
/// cannot be read stops.
pub open spec fn items_stop(b: Seq<u8>, p: int, element_type: u32, n: nat) -> int
    decreases b.len() - p, 1nat, n,
{
    if n == 0 {
        p
    } else {
        match items_at(b, p, element_type, (n - 1) as nat) {
            Err(_) => items_stop(b, p, element_type, (n - 1) as nat),
            Ok((_, q)) => if p <= q <= b.len() {
                value_stop(b, q, element_type)
            } else {
                q
            },
        }
    }
}

/// A value lies in the file.
proof fn lemma_value_inside(b: Seq<u8>, p: int, value_type: u32)
    requires
        0 <= p <= b.len(),
    ensures
        value_at(b, p, value_type) matches Ok((_, q)) ==> p <= q <= b.len(),
    decreases b.len() - p, 0nat, 0nat,
{
    if value_type == 9 && p + 12 <= b.len() {
        lemma_items_inside(b, p + 12, le32(b, p), (le64(b, p + 4) as usize) as nat);
    }
}

/// Values in a row lie in the file.
proof fn lemma_items_inside(b: Seq<u8>, p: int, element_type: u32, n: nat)
    requires
        0 <= p <= b.len(),
    ensures
        items_at(b, p, element_type, n) matches Ok((_, q)) ==> p <= q <= b.len(),
    decreases b.len() - p, 1nat, n,
{
    if n > 0 {
        lemma_items_inside(b, p, element_type, (n - 1) as nat);
        if let Ok((_, q)) = items_at(b, p, element_type, (n - 1) as nat) {
            lemma_value_inside(b, q, element_type);
        }
    }
}

/// What stops a row of values stops every longer row.
proof fn lemma_items_stop(b: Seq<u8>, p: int, element_type: u32, k: nat, n: nat)
    requires
        k <= n,
        items_at(b, p, element_type, k) is Err,
    ensures
        items_at(b, p, element_type, n) == items_at(b, p, element_type, k),
        items_stop(b, p, element_type, n) == items_stop(b, p, element_type, k),
    decreases n,
{
    if k < n {
        lemma_items_stop(b, p, element_type, k, (n - 1) as nat);
    }
}

impl<'a> Cursor<'a> {
    fn u16(&mut self) -> (r: Result<u16>)
        ensures
            reads(
                *old(self),
                *final(self),
                r,
                short_at(old(self).data@, old(self).pos as int),
                old(self).pos as int,
            ),
    {
        match self.need(2) {
            Ok(_) => {},
            Err(e) => return Err(e),
        }
        assert(self.data@.len() == self.data.len());
        let v = read16(self.data, self.pos);
        self.pos = self.pos + 2;
        Ok(v)
    }

    fn items(&mut self, element_type: u32, n: usize) -> (r: Result<Vec<MetaValue>>)
        requires
            old(self).wf(),
        ensures
            final(self).data == old(self).data,
            match r {
                Ok(items) => items_at(
                    old(self).data@,
                    old(self).pos as int,
                    element_type,
                    n as nat,
                ) == Ok::<(Seq<MetaView>, int), ErrorView>(
                    (item_views(items@), final(self).pos as int),
                ),
                Err(e) => items_at(old(self).data@, old(self).pos as int, element_type, n as nat)
                    == Err::<(Seq<MetaView>, int), ErrorView>(e@) && final(self).pos == items_stop(
                    old(self).data@,
                    old(self).pos as int,
                    element_type,
                    n as nat,
                ),
            },
        decreases old(self).data@.len() - old(self).pos, 1nat,
    {
        let ghost b = self.data@;
        let ghost p = self.pos as int;
        let mut items: Vec<MetaValue> = Vec::new();
        let mut i: usize = 0;
        assert(item_views(items@) =~= seq![]);
        while i < n
            invariant
                i <= n,
                p == old(self).pos,
                b == old(self).data@,
                self.data == old(self).data,
                p <= self.pos <= b.len(),
                items_at(b, p, element_type, i as nat) == Ok::<(Seq<MetaView>, int), ErrorView>(
                    (item_views(items@), self.pos as int),
                ),
            decreases n - i,
        {
            proof {
                lemma_value_inside(b, self.pos as int, element_type);
            }
            match self.value(element_type) {
                Ok(v) => {
                    let ghost before = item_views(items@);
                    let ghost w = v@;
                    items.push(v);
                    assert(item_views(items@) =~= before.push(w));
                },
                Err(e) => {
                    proof {
                        lemma_items_stop(b, p, element_type, (i + 1) as nat, n as nat);
                    }
                    return Err(e);
                },
            }
            i = i + 1;
        }
        Ok(items)
    }

    /// Reads a metadata value of the given type id.
    pub fn value(&mut self, value_type: u32) -> (r: Result<MetaValue>)
        requires
            old(self).wf(),
        ensures
            reads(
                *old(self),
                *final(self),
                r,
                value_at(old(self).data@, old(self).pos as int, value_type),
                value_stop(old(self).data@, old(self).pos as int, value_type),
            ),
        decreases old(self).data@.len() - old(self).pos, 0nat,
    {
        match value_type {
            0 => match self.u8() {
                Ok(v) => Ok(MetaValue::U64(v as u64)),
                Err(e) => Err(e),
            },
            1 => match self.u8() {
                Ok(v) => Ok(MetaValue::I64(as_signed8(v) as i64)),
                Err(e) => Err(e),
            },
            2 => match self.u16() {
                Ok(v) => Ok(MetaValue::U64(v as u64)),
                Err(e) => Err(e),
            },
            3 => match self.u16() {
                Ok(v) => Ok(MetaValue::I64(as_signed16(v))),
                Err(e) => Err(e),
            },
            4 => match self.u32() {
                Ok(v) => Ok(MetaValue::U64(v as u64)),
                Err(e) => Err(e),
            },
            5 => match self.u32() {
                Ok(v) => Ok(MetaValue::I64(as_signed32(v))),
                Err(e) => Err(e),
            },
            6 => match self.u32() {
                Ok(v) => Ok(MetaValue::Single(v)),
                Err(e) => Err(e),
            },
            7 => match self.u8() {
                Ok(v) => Ok(MetaValue::U64(if v != 0 { 1 } else { 0 })),
                Err(e) => Err(e),
            },
            8 => match self.string() {
                Ok(s) => Ok(MetaValue::String(s)),
                Err(e) => Err(e),
            },
            9 => {
                let element_type = match self.u32() {
                    Ok(v) => v,
                    Err(e) => return Err(e),
                };
                let count = match self.u64() {
                    Ok(v) => v as usize,
                    Err(e) => return Err(e),
                };
                match self.items(element_type, count) {
                    Ok(items) => {
                        proof {
                            lemma_array_view(items);
                        }
                        Ok(MetaValue::Array(items))
                    },
                    Err(e) => Err(e),
                }
            },
            10 => match self.u64() {
                Ok(v) => Ok(MetaValue::U64(v)),
                Err(e) => Err(e),
            },
            11 => match self.u64() {
                Ok(v) => Ok(MetaValue::I64(as_signed64(v))),
                Err(e) => Err(e),
            },
            12 => match self.u64() {
                Ok(v) => Ok(MetaValue::Double(v)),
                Err(e) => Err(e),
            },
            other => Err(
                EyebrowseError::Load(
                    cat2(
                        "GGUF unknown metadata value type ",
                        decimal(other as u64).as_str(),
                    ),
                ),
            ),
        }
    }
}

/// The metadata pairs in a row at `p`: a key, the type of a value, the value.
pub open spec fn pairs_at(b: Seq<u8>, p: int, n: nat) -> Parsed<Seq<(Seq<char>, MetaView)>>
    decreases n,
{
    if n == 0 {
        Ok((seq![], p))
    } else {
        match pairs_at(b, p, (n - 1) as nat) {
            Err(e) => Err(e),
            Ok((pairs, q)) => match pair_at(b, q) {
                Err(e) => Err(e),
                Ok((pair, end)) => Ok((pairs.push(pair), end)),
            },
        }
    }
}

/// The metadata pair at `p`.
pub open spec fn pair_at(b: Seq<u8>, p: int) -> Parsed<(Seq<char>, MetaView)> {
    match string_at(b, p) {
        Err(e) => Err(e),
        Ok((key, q)) => match word_at(b, q) {
            Err(e) => Err(e),
            Ok((value_type, at)) => match value_at(b, at, value_type) {
                Err(e) => Err(e),
                Ok((value, end)) => Ok(((key, value), end)),
            },
        },
    }
}

/// Where a tensor lies in a file, of what type it is and what shape it has.
pub struct InfoView {
    pub ggml_type: u32,
    /// Row-major shape.
    pub shape: Seq<usize>,
    pub offset: u64,
}

/// The sizes in a row at `p`.
pub open spec fn sizes_at(b: Seq<u8>, p: int, n: nat) -> Parsed<Seq<usize>>
    decreases n,
{
    if n == 0 {
        Ok((seq![], p))
    } else {
        match sizes_at(b, p, (n - 1) as nat) {
            Err(e) => Err(e),
            Ok((sizes, q)) => match long_at(b, q) {
                Err(e) => Err(e),
                Ok((v, end)) => Ok((sizes.push(v as usize), end)),
            },
        }
    }
}

/// The tensor description at `p`: its name, its sizes with the fastest-varying first, its type and
/// where it lies. The shape is row-major: the sizes reversed. A tensor of more elements than the
/// machine can count is refused.
pub open spec fn info_at(b: Seq<u8>, p: int) -> Parsed<(Seq<char>, InfoView)> {
    match string_at(b, p) {
        Err(e) => Err(e),
        Ok((name, q)) => match word_at(b, q) {
            Err(e) => Err(e),
            Ok((n, at)) => match sizes_at(b, at, (n as usize) as nat) {
                Err(e) => Err(e),
                Ok((sizes, q)) => match word_at(b, q) {
                    Err(e) => Err(e),
                    Ok((ggml_type, q)) => match long_at(b, q) {
                        Err(e) => Err(e),
                        Ok((offset, end)) => if !countable(sizes) {
                            Err(ErrorView::Load("GGUF tensor "@ + name + " too large"@))
                        } else {
                            Ok(
                                (
                                    (name, InfoView { ggml_type, shape: sizes.reverse(), offset }),
                                    end,
                                ),
                            )
                        },
                    },
                },
            },
        },
    }
}

/// The tensor descriptions in a row at `p`.
pub open spec fn infos_at(b: Seq<u8>, p: int, n: nat) -> Parsed<Seq<(Seq<char>, InfoView)>>
    decreases n,
{
    if n == 0 {
        Ok((seq![], p))
    } else {
        match infos_at(b, p, (n - 1) as nat) {
            Err(e) => Err(e),
            Ok((infos, q)) => match info_at(b, q) {
                Err(e) => Err(e),
                Ok((info, end)) => Ok((infos.push(info), end)),
            },
        }
    }
}

proof fn lemma_pairs_stop(b: Seq<u8>, p: int, k: nat, n: nat)
    requires
        k <= n,
        pairs_at(b, p, k) is Err,
    ensures
        pairs_at(b, p, n) == pairs_at(b, p, k),
    decreases n,
{
    if k < n {
        lemma_pairs_stop(b, p, k, (n - 1) as nat);
    }
}

proof fn lemma_sizes_stop(b: Seq<u8>, p: int, k: nat, n: nat)
    requires
        k <= n,
        sizes_at(b, p, k) is Err,
    ensures
        sizes_at(b, p, n) == sizes_at(b, p, k),
    decreases n,
{
    if k < n {
        lemma_sizes_stop(b, p, k, (n - 1) as nat);
    }
}

proof fn lemma_infos_stop(b: Seq<u8>, p: int, k: nat, n: nat)
    requires
        k <= n,
        infos_at(b, p, k) is Err,
    ensures
        infos_at(b, p, n) == infos_at(b, p, k),
    decreases n,
{
    if k < n {
        lemma_infos_stop(b, p, k, (n - 1) as nat);
    }
}

/// Metadata pairs, by their views.
pub open spec fn pair_views(pairs: Seq<(String, MetaValue)>) -> Seq<(Seq<char>, MetaView)> {
    pairs.map_values(|e: (String, MetaValue)| (e.0@, e.1@))
}

/// Where a tensor lies in a file, of what type it is and what shape it has.
#[derive(Debug)]
pub struct TensorInfo {
    ggml_type: u32,
    /// Row-major shape (GGUF's fastest-varying-first sizes, reversed).
    shape: Vec<usize>,
    n_elems: usize,
    offset: u64,
}

impl TensorInfo {
    #[verifier::type_invariant]
    spec fn inv(self) -> bool {
        self.n_elems == numel(self.shape@)
    }
}

impl View for TensorInfo {
    type V = InfoView;

    closed spec fn view(&self) -> InfoView {
        InfoView { ggml_type: self.ggml_type, shape: self.shape@, offset: self.offset }
    }
}

/// Tensor descriptions, by their views.
pub open spec fn info_views(infos: Seq<(String, TensorInfo)>) -> Seq<(Seq<char>, InfoView)> {
    infos.map_values(|e: (String, TensorInfo)| (e.0@, e.1@))
}

impl<'a> Cursor<'a> {
    fn pairs(&mut self, n: usize) -> (r: Result<Vec<(String, MetaValue)>>)
        requires
            old(self).wf(),
        ensures
            final(self).data == old(self).data,
            match r {
                Ok(pairs) => final(self).wf() && pairs_at(
                    old(self).data@,
                    old(self).pos as int,
                    n as nat,
                ) == Ok::<(Seq<(Seq<char>, MetaView)>, int), ErrorView>(
                    (pair_views(pairs@), final(self).pos as int),
                ),
                Err(e) => pairs_at(old(self).data@, old(self).pos as int, n as nat) == Err::<
                    (Seq<(Seq<char>, MetaView)>, int),
                    ErrorView,
                >(e@),
            },
    {
        let ghost b = self.data@;
        let ghost p = self.pos as int;
        let mut pairs: Vec<(String, MetaValue)> = Vec::new();
        let mut i: usize = 0;
        assert(pair_views(pairs@) =~= seq![]);
        while i < n
            invariant
                i <= n,
                p == old(self).pos,
                b == old(self).data@,
                self.data == old(self).data,
                self.wf(),
                pairs_at(b, p, i as nat) == Ok::<(Seq<(Seq<char>, MetaView)>, int), ErrorView>(
                    (pair_views(pairs@), self.pos as int),
                ),
            decreases n - i,
        {
            match self.pair() {
                Ok(pair) => {
                    let ghost before = pair_views(pairs@);
                    let ghost shown = (pair.0@, pair.1@);
                    pairs.push(pair);
                    assert(pair_views(pairs@) =~= before.push(shown));
                },
                Err(e) => {
                    proof {
                        lemma_pairs_stop(b, p, (i + 1) as nat, n as nat);
                    }
                    return Err(e);
                },
            }
            i = i + 1;
        }
        Ok(pairs)
    }

    fn pair(&mut self) -> (r: Result<(String, MetaValue)>)
        requires
            old(self).wf(),
        ensures
            final(self).data == old(self).data,
            match r {
                Ok(pair) => final(self).wf() && pair_at(old(self).data@, old(self).pos as int)
                    == Ok::<((Seq<char>, MetaView), int), ErrorView>(
                    ((pair.0@, pair.1@), final(self).pos as int),
                ),
                Err(e) => pair_at(old(self).data@, old(self).pos as int) == Err::<
                    ((Seq<char>, MetaView), int),
                    ErrorView,
                >(e@),
            },
    {
        let key = match self.string() {
            Ok(s) => s,
            Err(e) => return Err(e),
        };
        let value_type = match self.u32() {
            Ok(v) => v,
            Err(e) => return Err(e),
        };
        proof {
            lemma_value_inside(self.data@, self.pos as int, value_type);
        }
        match self.value(value_type) {
            Ok(v) => Ok((key, v)),
            Err(e) => Err(e),
        }
    }

    fn sizes(&mut self, n: usize) -> (r: Result<Vec<usize>>)
        ensures
            reads(
                *old(self),
                *final(self),
                r,
                sizes_at(old(self).data@, old(self).pos as int, n as nat),
                final(self).pos as int,
            ),
            old(self).wf() && r is Ok ==> final(self).wf(),
    {
        let ghost b = self.data@;
        let ghost p = self.pos as int;
        let mut sizes: Vec<usize> = Vec::new();
        let mut i: usize = 0;
        assert(sizes@ =~= seq![]);
        while i < n
            invariant
                i <= n,
                p == old(self).pos,
                b == old(self).data@,
                self.data == old(self).data,
                old(self).wf() ==> self.wf(),
                sizes_at(b, p, i as nat) == Ok::<(Seq<usize>, int), ErrorView>(
                    (sizes@, self.pos as int),
                ),
            decreases n - i,
        {
            match self.u64() {
                Ok(v) => {
                    sizes.push(v as usize);
                },
                Err(e) => {
                    proof {
                        lemma_sizes_stop(b, p, (i + 1) as nat, n as nat);
                    }
                    return Err(e);
                },
            }
            i = i + 1;
        }
        Ok(sizes)
    }

    fn info(&mut self) -> (r: Result<(String, TensorInfo)>)
        requires
            old(self).wf(),
        ensures
            final(self).data == old(self).data,
            match r {
                Ok(info) => final(self).wf() && info_at(old(self).data@, old(self).pos as int)
                    == Ok::<((Seq<char>, InfoView), int), ErrorView>(
                    ((info.0@, info.1@), final(self).pos as int),
                ),
                Err(e) => info_at(old(self).data@, old(self).pos as int) == Err::<
                    ((Seq<char>, InfoView), int),
                    ErrorView,
                >(e@),
            },
    {
        let name = match self.string() {
            Ok(s) => s,
            Err(e) => return Err(e),
        };
        let n_dims = match self.u32() {
            Ok(v) => v as usize,
            Err(e) => return Err(e),
        };
        let dims = match self.sizes(n_dims) {
            Ok(v) => v,
            Err(e) => return Err(e),
        };
        let ggml_type = match self.u32() {
            Ok(v) => v,
            Err(e) => return Err(e),
        };
        let offset = match self.u64() {
            Ok(v) => v,
            Err(e) => return Err(e),
        };
        let n_elems = match count(dims.as_slice()) {
            Some(n) => n,
            None => {
                return Err(
                    EyebrowseError::Load(cat3("GGUF tensor ", name.as_str(), " too large")),
                );
            },
        };
        // GGUF stores sizes fastest-varying first; row-major is the reverse.
        let mut shape: Vec<usize> = Vec::new();
        let mut i: usize = dims.len();
        while i > 0
            invariant
                i <= dims@.len(),
                shape@.len() == dims@.len() - i,
                forall|k: int|
                    0 <= k < shape@.len() ==> #[trigger] shape@[k] == dims@[dims@.len() - 1 - k],
            decreases i,
        {
            i = i - 1;
            shape.push(dims[i]);
        }
        proof {
            assert(shape@ =~= dims@.reverse());
            lemma_numel_reverse(dims@);
        }
        Ok((name, TensorInfo { ggml_type, shape, n_elems, offset }))
    }

    fn infos(&mut self, n: usize) -> (r: Result<Vec<(String, TensorInfo)>>)
        requires
            old(self).wf(),
        ensures
            final(self).data == old(self).data,
            match r {
                Ok(infos) => final(self).wf() && infos_at(
                    old(self).data@,
                    old(self).pos as int,
                    n as nat,
                ) == Ok::<(Seq<(Seq<char>, InfoView)>, int), ErrorView>(
                    (info_views(infos@), final(self).pos as int),
                ),
                Err(e) => infos_at(old(self).data@, old(self).pos as int, n as nat) == Err::<
                    (Seq<(Seq<char>, InfoView)>, int),
                    ErrorView,
                >(e@),
            },
    {
        let ghost b = self.data@;
        let ghost p = self.pos as int;
        let mut infos: Vec<(String, TensorInfo)> = Vec::new();
        let mut i: usize = 0;
        assert(info_views(infos@) =~= seq![]);
        while i < n
            invariant
                i <= n,
                p == old(self).pos,
                b == old(self).data@,
                self.data == old(self).data,
                self.wf(),
                infos_at(b, p, i as nat) == Ok::<(Seq<(Seq<char>, InfoView)>, int), ErrorView>(
                    (info_views(infos@), self.pos as int),
                ),
            decreases n - i,
        {
            match self.info() {
                Ok(info) => {
                    let ghost before = info_views(infos@);
                    let ghost shown = (info.0@, info.1@);
                    infos.push(info);
                    assert(info_views(infos@) =~= before.push(shown));
                },
                Err(e) => {
                    proof {
                        lemma_infos_stop(b, p, (i + 1) as nat, n as nat);
                    }
                    return Err(e);
                },
            }
            i = i + 1;
        }
        Ok(infos)
    }
}

/// How many elements a block of this type has, and in how many bytes.
pub open spec fn block_of(ggml_type: u32) -> Option<(usize, usize)> {
    if ggml_type == 0 {
        Some((1, 4))
    } else if ggml_type == 1 {
        Some((1, 2))
    } else if ggml_type == 8 {
        Some((32, 34))
    } else if ggml_type == 12 {
        Some((256, 144))
    } else if ggml_type == 14 {
        Some((256, 210))
    } else {
        None
    }
}

/// The error for a type of weights that is not read.
pub open spec fn unknown_type(ggml_type: u32) -> ErrorView {
    ErrorView::UnsupportedConfig("ggml type "@ + dec(ggml_type as nat))
}

/// Tells how many elements a block of this type has, and in how many bytes.
pub fn ggml_type_size(ggml_type: u32) -> (r: Result<(usize, usize)>)
    ensures
        match r {
            Ok(size) => block_of(ggml_type) == Some(size),
            Err(e) => block_of(ggml_type) is None && e@ == unknown_type(ggml_type),
        },
{
    match ggml_type {
        0 => Ok((1, 4)),
        1 => Ok((1, 2)),
        8 => Ok((32, 34)),
        12 => Ok((256, 144)),
        14 => Ok((256, 210)),
        other => Err(
            EyebrowseError::UnsupportedConfig(
                cat2("ggml type ", decimal(other as u64).as_str()),
            ),
        ),
    }
}

/// What GGUF calls a part of a layer.
pub open spec fn gguf_part(part: Seq<char>) -> Option<Seq<char>> {
    if part == "input_layernorm"@ {
        Some("attn_norm"@)
    } else if part == "post_attention_layernorm"@ {
        Some("ffn_norm"@)
    } else if part == "self_attn.q_proj"@ {
        Some("attn_q"@)
    } else if part == "self_attn.k_proj"@ {
        Some("attn_k"@)
    } else if part == "self_attn.v_proj"@ {
        Some("attn_v"@)
    } else if part == "self_attn.o_proj"@ {
        Some("attn_output"@)
    } else if part == "self_attn.q_norm"@ {
        Some("attn_q_norm"@)
    } else if part == "self_attn.k_norm"@ {
        Some("attn_k_norm"@)
    } else if part == "mlp.gate_proj"@ {
        Some("ffn_gate"@)
    } else if part == "mlp.up_proj"@ {
        Some("ffn_up"@)
    } else if part == "mlp.down_proj"@ {
        Some("ffn_down"@)
    } else {
        None
    }
}

/// The layer and the part that `model.layers.<layer>.<part>.weight` names.
pub open spec fn layer_part(name: Seq<char>) -> Option<(Seq<char>, Seq<char>)> {
    let rest = name.skip("model.layers."@.len() as int);
    let dot = first_of(rest, '.');
    let tail = rest.skip(dot + 1);
    if begins(name, "model.layers."@) && dot < rest.len() && is_index(rest.take(dot)) && ends(
        tail,
        ".weight"@,
    ) {
        Some((rest.take(dot), tail.take(tail.len() - ".weight"@.len())))
    } else {
        None
    }
}

/// What GGUF calls the tensor of this Hugging Face name.
pub open spec fn gguf_name(name: Seq<char>) -> Option<Seq<char>> {
    if name == "model.embed_tokens.weight"@ {
        Some("token_embd.weight"@)
    } else if name == "model.norm.weight"@ {
        Some("output_norm.weight"@)
    } else if name == "lm_head.weight"@ {
        Some("output.weight"@)
    } else {
        match layer_part(name) {
            Some((layer, part)) => match gguf_part(part) {
                Some(target) => Some("blk."@ + layer + "."@ + target + ".weight"@),
                None => None,
            },
            None => None,
        }
    }
}

fn part_to_gguf(part: &str) -> (r: Option<&'static str>)
    ensures
        match r {
            Some(t) => gguf_part(part@) == Some(t@),
            None => gguf_part(part@) is None,
        },
{
    if same(part, "input_layernorm") {
        Some("attn_norm")
    } else if same(part, "post_attention_layernorm") {
        Some("ffn_norm")
    } else if same(part, "self_attn.q_proj") {
        Some("attn_q")
    } else if same(part, "self_attn.k_proj") {
        Some("attn_k")
    } else if same(part, "self_attn.v_proj") {
        Some("attn_v")
    } else if same(part, "self_attn.o_proj") {
        Some("attn_output")
    } else if same(part, "self_attn.q_norm") {
        Some("attn_q_norm")
    } else if same(part, "self_attn.k_norm") {
        Some("attn_k_norm")
    } else if same(part, "mlp.gate_proj") {
        Some("ffn_gate")
    } else if same(part, "mlp.up_proj") {
        Some("ffn_up")
    } else if same(part, "mlp.down_proj") {
        Some("ffn_down")
    } else {
        None
    }
}

/// Maps an HF-style tensor name to its GGUF counterpart, or `None` if unrecognized.
pub fn hf_to_gguf(name: &str) -> (r: Option<String>)
    ensures
        match r {
            Some(g) => gguf_name(name@) == Some(g@),
            None => gguf_name(name@) is None,
        },
{
    if same(name, "model.embed_tokens.weight") {
        return Some("token_embd.weight".to_owned());
    }
    if same(name, "model.norm.weight") {
        return Some("output_norm.weight".to_owned());
    }
    if same(name, "lm_head.weight") {
        return Some("output.weight".to_owned());
    }
    let rest = match strip_prefix(name, "model.layers.") {
        Some(t) => t,
        None => return None,
    };
    let dot = find(rest, '.');
    let n = rest.unicode_len();
    if dot == n {
        return None;
    }
    let layer = rest.substring_char(0, dot);
    let tail = rest.substring_char(dot + 1, n);
    proof {
        assert(layer@ =~= rest@.take(dot as int));
        assert(tail@ =~= rest@.skip(dot + 1));
    }
    if !reads_as_index(layer) {
        return None;
    }
    let part = match strip_suffix(tail, ".weight") {
        Some(t) => t,
        None => return None,
    };
    let target = match part_to_gguf(part) {
        Some(t) => t,
        None => return None,
    };
    let mut out = cat3("blk.", layer, ".");
    out.append(target);
    out.append(".weight");
    Some(out)
}

/// The key of a setting of an architecture.
pub open spec fn setting(arch: Seq<char>, suffix: Seq<char>) -> Seq<char> {
    arch + "."@ + suffix
}

/// The value of a setting as a size.
pub open spec fn size_setting(
    meta: Seq<(Seq<char>, MetaView)>,
    arch: Seq<char>,
    suffix: Seq<char>,
) -> Option<usize> {
    match entry(meta, setting(arch, suffix)) {
        Some(v) => match meta_u64(v) {
            Some(n) => Some(n as usize),
            None => None,
        },
        None => None,
    }
}

/// The value of a setting as a single-precision code.
pub open spec fn real_setting(
    meta: Seq<(Seq<char>, MetaView)>,
    arch: Seq<char>,
    suffix: Seq<char>,
) -> Option<u32> {
    match entry(meta, setting(arch, suffix)) {
        Some(v) => meta_f32(v),
        None => None,
    }
}

/// The error for a setting that is not there.
pub open spec fn missing_setting(arch: Seq<char>, suffix: Seq<char>) -> ErrorView {
    ErrorView::Load("missing "@ + setting(arch, suffix))
}

/// The error for a setting that is not there.
pub fn missing(arch: &str, suffix: &str) -> (r: EyebrowseError)
    ensures
        r@ == missing_setting(arch@, suffix@),
{
    EyebrowseError::Load(cat2("missing ", cat3(arch, ".", suffix).as_str()))
}

/// The number of tokens that the file lists.
pub open spec fn listed_vocab(meta: Seq<(Seq<char>, MetaView)>) -> usize {
    match entry(meta, "tokenizer.ggml.tokens"@) {
        Some(MetaView::Items(items)) => items.len() as usize,
        _ => 0,
    }
}

/// `x`, or `y` where there is none.
pub open spec fn or<T>(x: Option<T>, y: T) -> T {
    match x {
        Some(v) => v,
        None => y,
    }
}

/// The first setting for which metadata are refused as a configuration.
pub open spec fn settings_fault(
    meta: Seq<(Seq<char>, MetaView)>,
    arch: Seq<char>,
) -> Option<ErrorView> {
    if size_setting(meta, arch, "embedding_length"@) is None {
        Some(missing_setting(arch, "embedding_length"@))
    } else if size_setting(meta, arch, "block_count"@) is None {
        Some(missing_setting(arch, "block_count"@))
    } else if size_setting(meta, arch, "attention.head_count"@) is None {
        Some(missing_setting(arch, "attention.head_count"@))
    } else if size_setting(meta, arch, "attention.head_count"@) == Some(0usize) {
        Some(ErrorView::Load("zero "@ + setting(arch, "attention.head_count"@)))
    } else if size_setting(meta, arch, "feed_forward_length"@) is None {
        Some(missing_setting(arch, "feed_forward_length"@))
    } else if real_setting(meta, arch, "attention.layer_norm_rms_epsilon"@) is None {
        Some(missing_setting(arch, "attention.layer_norm_rms_epsilon"@))
    } else if size_setting(meta, arch, "context_length"@) is None {
        Some(missing_setting(arch, "context_length"@))
    } else {
        None
    }
}

/// The architecture that metadata name.
pub open spec fn architecture(meta: Seq<(Seq<char>, MetaView)>) -> Option<Seq<char>> {
    match entry(meta, "general.architecture"@) {
        Some(v) => meta_text(v),
        None => None,
    }
}

/// The configuration that metadata describe. The embeddings are tied where the file has no output
/// weights.
pub open spec fn gguf_config(
    meta: Seq<(Seq<char>, MetaView)>,
    has_output: bool,
) -> std::result::Result<ConfigView, ErrorView> {
    match architecture(meta) {
        None => Err(ErrorView::Load("missing general.architecture"@)),
        Some(arch) => match settings_fault(meta, arch) {
            Some(e) => Err(e),
            None => {
                let hidden = size_setting(meta, arch, "embedding_length"@)->Some_0;
                let n_heads = size_setting(meta, arch, "attention.head_count"@)->Some_0;
                Ok(
                    ConfigView {
                        arch,
                        hidden,
                        n_layers: size_setting(meta, arch, "block_count"@)->Some_0,
                        n_heads,
                        n_kv_heads: or(
                            size_setting(meta, arch, "attention.head_count_kv"@),
                            n_heads,
                        ),
                        head_dim: or(
                            size_setting(meta, arch, "attention.key_length"@),
                            hidden / n_heads,
                        ),
                        intermediate: size_setting(meta, arch, "feed_forward_length"@)->Some_0,
                        vocab: or(size_setting(meta, arch, "vocab_size"@), listed_vocab(meta)),
                        rms_eps: real_setting(
                            meta,
                            arch,
                            "attention.layer_norm_rms_epsilon"@,
                        )->Some_0,
                        rope_theta: or(
                            real_setting(meta, arch, "rope.freq_base"@),
                            DEFAULT_ROPE_THETA,
                        ),
                        tie_word_embeddings: !has_output,
                        max_seq: size_setting(meta, arch, "context_length"@)->Some_0,
                        extra: null_contents(),
                    },
                )
            },
        },
    }
}

fn find_meta<'a>(meta: &'a Vec<(String, MetaValue)>, key: &str) -> (r: Option<&'a MetaValue>)
    ensures
        match r {
            Some(v) => entry(pair_views(meta@), key@) == Some(v@),
            None => entry(pair_views(meta@), key@) is None,
        },
{
    match position(meta, key) {
        Some(i) => {
            proof {
                lemma_entry(pair_views(meta@), key@, i as int);
            }
            Some(&meta[i].1)
        },
        None => {
            proof {
                lemma_entry(pair_views(meta@), key@, -1);
            }
            None
        },
    }
}

fn get_size(meta: &Vec<(String, MetaValue)>, arch: &str, suffix: &str) -> (r: Option<usize>)
    ensures
        r == size_setting(pair_views(meta@), arch@, suffix@),
{
    match find_meta(meta, cat3(arch, ".", suffix).as_str()) {
        Some(v) => match v.as_u64() {
            Some(n) => Some(n as usize),
            None => None,
        },
        None => None,
    }
}

fn get_f32(meta: &Vec<(String, MetaValue)>, arch: &str, suffix: &str) -> (r: Option<u32>)
    ensures
        r == real_setting(pair_views(meta@), arch@, suffix@),
{
    match find_meta(meta, cat3(arch, ".", suffix).as_str()) {
        Some(v) => v.as_f32(),
        None => None,
    }
}

fn count_tokens(meta: &Vec<(String, MetaValue)>) -> (r: usize)
    ensures
        r == listed_vocab(pair_views(meta@)),
{
    match find_meta(meta, "tokenizer.ggml.tokens") {
        Some(MetaValue::Array(items)) => {
            proof {
                lemma_array_view(*items);
            }
            items.len()
        },
        _ => 0,
    }
}

fn or_else_size(x: Option<usize>, y: usize) -> (r: usize)
    ensures
        r == or(x, y),
{
    match x {
        Some(v) => v,
        None => y,
    }
}

fn build_config(meta: &Vec<(String, MetaValue)>, has_output: bool) -> (r: Result<Config>)
    ensures
        seen(r) == gguf_config(pair_views(meta@), has_output),
{
    let arch = match find_meta(meta, "general.architecture") {
        Some(v) => match v.as_str() {
            Some(s) => s,
            None => {
                return Err(EyebrowseError::Load("missing general.architecture".to_owned()));
            },
        },
        None => {
            return Err(EyebrowseError::Load("missing general.architecture".to_owned()));
        },
    };
    let hidden = match get_size(meta, arch, "embedding_length") {
        Some(v) => v,
        None => return Err(missing(arch, "embedding_length")),
    };
    let n_layers = match get_size(meta, arch, "block_count") {
        Some(v) => v,
        None => return Err(missing(arch, "block_count")),
    };
    let n_heads = match get_size(meta, arch, "attention.head_count") {
        Some(v) => v,
        None => return Err(missing(arch, "attention.head_count")),
    };
    if n_heads == 0 {
        return Err(
            EyebrowseError::Load(
                cat2("zero ", cat3(arch, ".", "attention.head_count").as_str()),
            ),
        );
    }
    let n_kv_heads = or_else_size(get_size(meta, arch, "attention.head_count_kv"), n_heads);
    let head_dim = or_else_size(get_size(meta, arch, "attention.key_length"), hidden / n_heads);
    let intermediate = match get_size(meta, arch, "feed_forward_length") {
        Some(v) => v,
        None => return Err(missing(arch, "feed_forward_length")),
    };
    let rms_eps = match get_f32(meta, arch, "attention.layer_norm_rms_epsilon") {
        Some(v) => v,
        None => return Err(missing(arch, "attention.layer_norm_rms_epsilon")),
    };
    let rope_theta = match get_f32(meta, arch, "rope.freq_base") {
        Some(v) => v,
        None => DEFAULT_ROPE_THETA,
    };
    let max_seq = match get_size(meta, arch, "context_length") {
        Some(v) => v,
        None => return Err(missing(arch, "context_length")),
    };
    let vocab = or_else_size(get_size(meta, arch, "vocab_size"), count_tokens(meta));
    Ok(
        Config {
            arch: arch.to_owned(),
            hidden,
            n_layers,
            n_heads,
            n_kv_heads,
            head_dim,
            intermediate,
            vocab,
            rms_eps,
            rope_theta,
            tie_word_embeddings: !has_output,
            max_seq,
            extra: null_document(),
        },
    )
}

/// What a GGUF file holds: the configuration, where the data begin and the tensors.
pub struct GgufParts {
    pub config: ConfigView,
    pub data_start: usize,
    pub tensors: Seq<(Seq<char>, InfoView)>,
}

/// The least multiple of `a` that is not below `p`.
pub open spec fn aligned(p: int, a: int) -> int {
    if p % a == 0 {
        p
    } else {
        p - p % a + a
    }
}

/// The alignment that metadata ask for.
pub open spec fn alignment(meta: Seq<(Seq<char>, MetaView)>) -> usize {
    match entry(meta, "general.alignment"@) {
        Some(v) => match meta_u64(v) {
            Some(n) => n as usize,
            None => 32,
        },
        None => 32,
    }
}

/// What the bytes of a GGUF file hold: the magic word, version 3, the numbers of tensors and of
/// metadata pairs, the pairs, the tensor descriptions and, from the next aligned position on, the
/// data.
pub open spec fn gguf(b: Seq<u8>) -> std::result::Result<GgufParts, ErrorView> {
    match word_at(b, 0) {
        Err(e) => Err(e),
        Ok((magic, _)) => if magic != GGUF_MAGIC {
            Err(ErrorView::Load("not a GGUF file"@))
        } else {
            match word_at(b, 4) {
                Err(e) => Err(e),
                Ok((version, _)) => if version != 3 {
                    Err(
                        ErrorView::UnsupportedConfig("GGUF version "@ + dec(version as nat)),
                    )
                } else {
                    match long_at(b, 8) {
                        Err(e) => Err(e),
                        Ok((n_tensors, _)) => match long_at(b, 16) {
                            Err(e) => Err(e),
                            Ok((n_pairs, _)) => match pairs_at(
                                b,
                                24,
                                (n_pairs as usize) as nat,
                            ) {
                                Err(e) => Err(e),
                                Ok((meta, p)) => match infos_at(
                                    b,
                                    p,
                                    (n_tensors as usize) as nat,
                                ) {
                                    Err(e) => Err(e),
                                    Ok((tensors, end)) => laid_out(meta, tensors, end),
                                },
                            },
                        },
                    }
                },
            }
        },
    }
}

/// What a file holds whose metadata and tensor descriptions end at `end`.
pub open spec fn laid_out(
    meta: Seq<(Seq<char>, MetaView)>,
    tensors: Seq<(Seq<char>, InfoView)>,
    end: int,
) -> std::result::Result<GgufParts, ErrorView> {
    let a = alignment(meta);
    if a == 0 || aligned(end, a as int) > usize::MAX {
        Err(ErrorView::Load("GGUF alignment "@ + dec(a as nat) + " out of range"@))
    } else {
        match gguf_config(meta, entry(tensors, "output.weight"@) is Some) {
            Err(e) => Err(e),
            Ok(config) => Ok(
                GgufParts { config, data_start: aligned(end, a as int) as usize, tensors },
            ),
        }
    }
}

fn read_alignment(meta: &Vec<(String, MetaValue)>) -> (r: usize)
    ensures
        r == alignment(pair_views(meta@)),
{
    match find_meta(meta, "general.alignment") {
        Some(v) => match v.as_u64() {
            Some(n) => n as usize,
            None => 32,
        },
        None => 32,
    }
}

fn has_info(tensors: &Vec<(String, TensorInfo)>, name: &str) -> (r: bool)
    ensures
        r == entry(info_views(tensors@), name@) is Some,
{
    match position(tensors, name) {
        Some(i) => {
            proof {
                lemma_entry(info_views(tensors@), name@, i as int);
            }
            true
        },
        None => {
            proof {
                lemma_entry(info_views(tensors@), name@, -1);
            }
            false
        },
    }
}

fn parse(bytes: &[u8]) -> (r: Result<(Config, usize, Vec<(String, TensorInfo)>)>)
    ensures
        match r {
            Ok(parts) => gguf(bytes@) == Ok::<GgufParts, ErrorView>(
                (GgufParts {
                    config: parts.0@,
                    data_start: parts.1,
                    tensors: info_views(parts.2@),
                }),
            ),
            Err(e) => gguf(bytes@) == Err::<GgufParts, ErrorView>(e@),
        },
{
    let mut c = Cursor::new(bytes);
    let magic = match c.u32() {
        Ok(v) => v,
        Err(e) => return Err(e),
    };
    if magic != GGUF_MAGIC {
        return Err(EyebrowseError::Load("not a GGUF file".to_owned()));
    }
    let version = match c.u32() {
        Ok(v) => v,
        Err(e) => return Err(e),
    };
    if version != 3 {
        return Err(
            EyebrowseError::UnsupportedConfig(
                cat2("GGUF version ", decimal(version as u64).as_str()),
            ),
        );
    }
    let tensor_count = match c.u64() {
        Ok(v) => v as usize,
        Err(e) => return Err(e),
    };
    let kv_count = match c.u64() {
        Ok(v) => v as usize,
        Err(e) => return Err(e),
    };
    let meta = match c.pairs(kv_count) {
        Ok(v) => v,
        Err(e) => return Err(e),
    };
    let tensors = match c.infos(tensor_count) {
        Ok(v) => v,
        Err(e) => return Err(e),
    };
    let alignment = read_alignment(&meta);
    let over = if alignment == 0 {
        0
    } else {
        c.pos % alignment
    };
    let gap = if over == 0 {
        0
    } else {
        alignment - over
    };
    if alignment == 0 || gap > usize::MAX - c.pos {
        return Err(
            EyebrowseError::Load(
                cat3("GGUF alignment ", decimal(alignment as u64).as_str(), " out of range"),
            ),
        );
    }
    let data_start = c.pos + gap;
    assert(data_start == aligned(c.pos as int, alignment as int));
    let config = match build_config(&meta, has_info(&tensors, "output.weight")) {
        Ok(v) => v,
        Err(e) => return Err(e),
    };
    Ok((config, data_start, tensors))
}

/// A [`WeightSource`] backed by a single in-memory GGUF v3 file.
pub struct GgufSource {
    config: Config,
    bytes: Vec<u8>,
    data_start: usize,
    tensors: Vec<(String, TensorInfo)>,
}

/// What a [`GgufSource`] holds.
pub struct GgufView {
    pub bytes: Seq<u8>,
    pub parts: GgufParts,
}

impl View for GgufSource {
    type V = GgufView;

    closed spec fn view(&self) -> GgufView {
        GgufView {
            bytes: self.bytes@,
            parts: GgufParts {
                config: self.config@,
                data_start: self.data_start,
                tensors: info_views(self.tensors@),
            },
        }
    }
}

/// The number of blocks of `block` elements that hold `n` elements.
pub open spec fn blocks_for(n: nat, block: nat) -> nat {
    if n % block == 0 {
        n / block
    } else {
        n / block + 1
    }
}

impl GgufView {
    /// Whether the file has the tensor of this Hugging Face name.
    pub open spec fn has(self, name: Seq<char>) -> bool {
        match gguf_name(name) {
            Some(g) => entry(self.parts.tensors, g) is Some,
            None => false,
        }
    }

    /// The names that a model of the file's layers may have.
    pub open spec fn candidates(self) -> Seq<Seq<char>> {
        candidates(self.parts.config.n_layers as nat, 0)
    }

    /// The names that the file lists, in order.
    pub open spec fn names(self) -> Seq<Seq<char>> {
        sorted(listed(self, self.candidates()))
    }

    /// The tensor of this Hugging Face name: its weights, dequantized to single precision.
    pub open spec fn tensor(self, name: Seq<char>) -> std::result::Result<RawView, ErrorView> {
        if !self.has(name) {
            Err(ErrorView::Load("unknown tensor "@ + name))
        } else {
            let info = entry(self.parts.tensors, gguf_name(name)->Some_0)->Some_0;
            match block_of(info.ggml_type) {
                None => Err(unknown_type(info.ggml_type)),
                Some((elems, size)) => {
                    let n = numel(info.shape);
                    let start = self.parts.data_start + (info.offset as usize);
                    let end = start + blocks_for(n, elems as nat) * size;
                    if end > self.bytes.len() {
                        Err(ErrorView::Load("tensor "@ + name + " data out of bounds"@))
                    } else {
                        match dequantized(info.ggml_type, self.bytes.subrange(start, end), n) {
                            Err(e) => Err(e),
                            Ok(values) => Ok(
                                RawView {
                                    bytes: words_bytes(values),
                                    dtype: RawDType::F32,
                                    shape: info.shape,
                                },
                            ),
                        }
                    }
                },
            }
        }
    }
}

impl GgufSource {
    /// Parses the bytes of a GGUF file.
    pub fn from_bytes(bytes: Vec<u8>) -> (r: Result<Self>)
        ensures
            match r {
                Ok(source) => gguf(bytes@) == Ok::<GgufParts, ErrorView>(source@.parts)
                    && source@.bytes == bytes@,
                Err(e) => gguf(bytes@) == Err::<GgufParts, ErrorView>(e@),
            },
    {
        match parse(bytes.as_slice()) {
            Ok((config, data_start, tensors)) => Ok(
                GgufSource { config, bytes, data_start, tensors },
            ),
            Err(e) => Err(e),
        }
    }

    fn has_tensor(&self, gguf_name: &str) -> (r: bool)
        ensures
            r == entry(self@.parts.tensors, gguf_name@) is Some,
    {
        has_info(&self.tensors, gguf_name)
    }
}

/// The parts of a layer that a file may hold, as Hugging Face names them.
pub open spec fn part_names() -> Seq<Seq<char>> {
    seq![
        "input_layernorm"@,
        "post_attention_layernorm"@,
        "self_attn.q_proj"@,
        "self_attn.k_proj"@,
        "self_attn.v_proj"@,
        "self_attn.o_proj"@,
        "self_attn.q_norm"@,
        "self_attn.k_norm"@,
        "mlp.gate_proj"@,
        "mlp.up_proj"@,
        "mlp.down_proj"@,
    ]
}

/// The names that a file of `layers` layers and `parts` parts of the next may hold.
pub open spec fn candidates(layers: nat, parts: nat) -> Seq<Seq<char>>
    decreases layers, parts,
{
    if parts > 0 {
        candidates(layers, (parts - 1) as nat).push(
            layer_name(layers, part_names()[parts - 1]),
        )
    } else if layers > 0 {
        candidates((layers - 1) as nat, 11)
    } else {
        seq!["model.embed_tokens.weight"@, "model.norm.weight"@, "lm_head.weight"@]
    }
}

/// Those of `names` that a file has.
pub open spec fn listed(v: GgufView, names: Seq<Seq<char>>) -> Seq<Seq<char>>
    decreases names.len(),
{
    if names.len() == 0 {
        seq![]
    } else if v.has(names.last()) {
        listed(v, names.drop_last()).push(names.last())
    } else {
        listed(v, names.drop_last())
    }
}

fn part_name(k: usize) -> (r: &'static str)
    requires
        k < 11,
    ensures
        r@ == part_names()[k as int],
{
    match k {
        0 => "input_layernorm",
        1 => "post_attention_layernorm",
        2 => "self_attn.q_proj",
        3 => "self_attn.k_proj",
        4 => "self_attn.v_proj",
        5 => "self_attn.o_proj",
        6 => "self_attn.q_norm",
        7 => "self_attn.k_norm",
        8 => "mlp.gate_proj",
        9 => "mlp.up_proj",
        _ => "mlp.down_proj",
    }
}

impl GgufSource {
    fn offer(&self, names: &mut Vec<String>, name: String, Ghost(tried): Ghost<Seq<Seq<char>>>)
        requires
            texts(old(names)@) == listed(self@, tried),
        ensures
            texts(final(names)@) == listed(self@, tried.push(name@)),
    {
        let known = match hf_to_gguf(name.as_str()) {
            Some(g) => self.has_tensor(g.as_str()),
            None => false,
        };
        assert(tried.push(name@).drop_last() =~= tried);
        if known {
            let ghost before = texts(names@);
            let ghost n = name@;
            names.push(name);
            assert(texts(names@) =~= before.push(n));
        }
    }
}

impl WeightSource for GgufSource {
    open spec fn spec_config(&self) -> ConfigView {
        self@.parts.config
    }

    open spec fn spec_names(&self) -> Seq<Seq<char>> {
        self@.names()
    }

    open spec fn spec_raw(&self, name: Seq<char>) -> Option<RawView> {
        match self@.tensor(name) {
            Ok(t) => Some(t),
            Err(_) => None,
        }
    }

    open spec fn spec_refusal(&self, name: Seq<char>, e: ErrorView) -> bool {
        self@.tensor(name) == Err::<RawView, ErrorView>(e)
    }

    fn config(&self) -> (r: &Config) {
        &self.config
    }

    fn tensor_names(&self) -> (r: Vec<String>) {
        let n = self.config.n_layers;
        let mut names: Vec<String> = Vec::new();
        proof {
            assert(texts(names@) =~= seq![]);
            assert(candidates(0, 0) =~= Seq::empty().push("model.embed_tokens.weight"@).push(
                "model.norm.weight"@,
            ).push("lm_head.weight"@));
        }
        self.offer(&mut names, "model.embed_tokens.weight".to_owned(), Ghost(Seq::empty()));
        self.offer(
            &mut names,
            "model.norm.weight".to_owned(),
            Ghost(Seq::empty().push("model.embed_tokens.weight"@)),
        );
        self.offer(
            &mut names,
            "lm_head.weight".to_owned(),
            Ghost(Seq::empty().push("model.embed_tokens.weight"@).push("model.norm.weight"@)),
        );
        let mut i: usize = 0;
        while i < n
            invariant
                i <= n,
                texts(names@) == listed(self@, candidates(i as nat, 0)),
            decreases n - i,
        {
            let mut k: usize = 0;
            while k < 11
                invariant
                    i < n,
                    k <= 11,
                    texts(names@) == listed(self@, candidates(i as nat, k as nat)),
                decreases 11 - k,
            {
                let mut name = cat3("model.layers.", decimal(i as u64).as_str(), ".");
                name.append(part_name(k));
                name.append(".weight");
                self.offer(&mut names, name, Ghost(candidates(i as nat, k as nat)));
                k = k + 1;
            }
            i = i + 1;
        }
        sort_names(names)
    }

    fn raw(&self, name: &str) -> (r: Result<RawTensor>) {
        let ghost v = self@;
        let gguf_name = match hf_to_gguf(name) {
            Some(g) => g,
            None => return Err(EyebrowseError::Load(cat2("unknown tensor ", name))),
        };
        let at = match position(&self.tensors, gguf_name.as_str()) {
            Some(i) => i,
            None => {
                proof {
                    lemma_entry(v.parts.tensors, gguf_name@, -1);
                }
                return Err(EyebrowseError::Load(cat2("unknown tensor ", name)));
            },
        };
        proof {
            lemma_entry(v.parts.tensors, gguf_name@, at as int);
        }
        let info = &self.tensors[at].1;
        proof {
            use_type_invariant(info);
        }
        let (block_elems, block_bytes) = match ggml_type_size(info.ggml_type) {
            Ok(size) => size,
            Err(e) => return Err(e),
        };
        let whole = info.n_elems / block_elems;
        let n_blocks: u128 = if info.n_elems % block_elems == 0 {
            whole as u128
        } else {
            whole as u128 + 1
        };
        let start: u128 = self.data_start as u128 + (info.offset as usize) as u128;
        assert(n_blocks * block_bytes <= 0x1_0000_0000_0000_0000 * 210) by (nonlinear_arith)
            requires
                n_blocks <= 0x1_0000_0000_0000_0000,
                block_bytes <= 210,
        ;
        let len: u128 = n_blocks * block_bytes as u128;
        assert(len == blocks_for(numel(info.shape@), block_elems as nat) * block_bytes);
        if start + len > self.bytes.len() as u128 {
            return Err(
                EyebrowseError::Load(cat3("tensor ", name, " data out of bounds")),
            );
        }
        let slice = &self.bytes[start as usize..(start + len) as usize];
        let values = match dequant(info.ggml_type, slice, info.n_elems) {
            Ok(v) => v,
            Err(e) => return Err(e),
        };
        Ok(
            RawTensor {
                bytes: to_bytes(values.as_slice()),
                dtype: RawDType::F32,
                shape: info.shape.clone(),
            },
        )
    }
}

/// Every name that a file lists is that of a tensor that it has.
pub proof fn lemma_listed_has(v: GgufView, names: Seq<Seq<char>>, i: int)
    requires
        0 <= i < listed(v, names).len(),
    ensures
        v.has(listed(v, names)[i]),
        names.contains(listed(v, names)[i]),
    decreases names.len(),
{
    let d = names.drop_last();
    if v.has(names.last()) && i == listed(v, d).len() {
        assert(names[names.len() - 1] == names.last());
    } else {
        lemma_listed_has(v, d, i);
        let k = choose|k: int| 0 <= k < d.len() && d[k] == listed(v, d)[i];
        assert(names[k] == listed(v, d)[i]);
    }
}

/// Whether a name is that of no layer, or that of one of the first `layers` layers with the number
/// of the layer written in plain decimal.
pub open spec fn in_layers(name: Seq<char>, layers: nat) -> bool {
    match layer_part(name) {
        Some((layer, _)) => exists|l: nat| l < layers && layer == #[trigger] dec(l),
        None => true,
    }
}

/// A file lists its tensors in order and each once: exactly those whose names are known and stand
/// for no layer or for one of the file's. A listed name of a layer is made of the layer's number
/// and the part, and what is listed is never an unknown tensor.
pub proof fn lemma_names(v: GgufView, name: Seq<char>)
    ensures
        is_sorted(v.names()),
        v.names().no_duplicates(),
        v.names().contains(name) <==> v.has(name) && in_layers(
            name,
            v.parts.config.n_layers as nat,
        ),
        v.names().contains(name) && layer_part(name) is Some ==> exists|l: nat|
            l < v.parts.config.n_layers && name == #[trigger] layer_name(
                l,
                layer_part(name)->Some_0.1,
            ),
        v.names().contains(name) ==> v.tensor(name) != Err::<RawView, ErrorView>(
            ErrorView::Load("unknown tensor "@ + name),
        ),
{
    let layers = v.parts.config.n_layers as nat;
    let all = listed(v, v.candidates());
    lemma_sorted(all);
    lemma_same_members(v.names(), all, name);
    lemma_candidates_once(layers, 0);
    lemma_listed_once(v, v.candidates());
    all.lemma_multiset_has_no_duplicates();
    v.names().lemma_multiset_has_no_duplicates_conv();
    if all.contains(name) {
        let i = choose|i: int| 0 <= i < all.len() && all[i] == name;
        lemma_listed_has(v, v.candidates(), i);
        lemma_among(layers, 0, name);
        if !fixed_name(name) {
            let (l, k) = choose|l: nat, k: nat|
                among(l, k, layers, 0) && name == #[trigger] layer_name(l, part_names()[k as int]);
            lemma_layer_part(l, part_names()[k as int]);
        } else {
            lemma_fixed(name);
        }
        lemma_not_unknown(v, name);
    }
    if v.has(name) && in_layers(name, layers) {
        if !fixed_name(name) {
            let l = choose|l: nat| l < layers && layer_part(name)->Some_0.0 == #[trigger] dec(l);
            let part = layer_part(name)->Some_0.1;
            lemma_layer_named(name, l, part);
            let k = lemma_known_part(part);
            assert(among(l, k, layers, 0));
        }
        lemma_among(layers, 0, name);
        lemma_has_listed(v, v.candidates(), name);
    }
}

proof fn lemma_not_unknown(v: GgufView, name: Seq<char>)
    requires
        v.has(name),
    ensures
        v.tensor(name) != Err::<RawView, ErrorView>(ErrorView::Load("unknown tensor "@ + name)),
{
    reveal_strlit("unknown tensor ");
    reveal_strlit("tensor ");
    reveal_strlit("F32 buffer too small");
    reveal_strlit("F16 buffer too small");
    reveal_strlit("Q8_0");
    reveal_strlit("Q4_K");
    reveal_strlit("Q6_K");
    let unknown = "unknown tensor "@ + name;
    assert(unknown[0] == 'u');
    if let Err(ErrorView::Load(words)) = v.tensor(name) {
        assert(words[0] != 'u');
    }
}

/// Whether a name is that of no layer's part.
spec fn fixed_name(name: Seq<char>) -> bool {
    ||| name == "model.embed_tokens.weight"@
    ||| name == "model.norm.weight"@
    ||| name == "lm_head.weight"@
}

/// Whether part `k` of layer `l` is among those of `layers` layers and `parts` parts of the next.
spec fn among(l: nat, k: nat, layers: nat, parts: nat) -> bool {
    k < 11 && (l < layers || (l == layers && k < parts))
}

proof fn lemma_fixed(name: Seq<char>)
    requires
        fixed_name(name),
    ensures
        layer_part(name) is None,
        forall|l: nat, part: Seq<char>| name != #[trigger] layer_name(l, part),
{
    reveal_strlit("model.layers.");
    reveal_strlit("model.embed_tokens.weight");
    reveal_strlit("model.norm.weight");
    reveal_strlit("lm_head.weight");
    let prefix = "model.layers."@;
    assert(name[1] != prefix[1] || name[6] != prefix[6]);
    assert(!begins(name, prefix)) by {
        if begins(name, prefix) {
            assert(name.take(prefix.len() as int)[1] == name[1]);
            assert(name.take(prefix.len() as int)[6] == name[6]);
        }
    }
    assert forall|l: nat, part: Seq<char>| name != #[trigger] layer_name(l, part) by {
        assert(layer_name(l, part)[1] == prefix[1]);
        assert(layer_name(l, part)[6] == prefix[6]);
    }
}

proof fn lemma_layer_named(name: Seq<char>, l: nat, part: Seq<char>)
    requires
        layer_part(name) == Some((dec(l), part)),
    ensures
        name == layer_name(l, part),
{
    reveal_strlit(".");
    let prefix = "model.layers."@;
    let rest = name.skip(prefix.len() as int);
    let dot = first_of(rest, '.');
    let tail = rest.skip(dot + 1);
    lemma_first_dot(rest);
    assert(tail =~= part + ".weight"@);
    assert(rest =~= dec(l) + "."@ + tail);
    assert(name =~= prefix + rest);
    assert(name =~= layer_name(l, part));
}

proof fn lemma_first_dot(s: Seq<char>)
    ensures
        0 <= first_of(s, '.') <= s.len(),
        first_of(s, '.') < s.len() ==> s[first_of(s, '.')] == '.',
    decreases s.len(),
{
    if s.len() > 0 {
        lemma_first_dot(s.skip(1));
    }
}

proof fn lemma_known_part(part: Seq<char>) -> (k: nat)
    requires
        gguf_part(part) is Some,
    ensures
        k < 11,
        part == part_names()[k as int],
{
    let p = part_names();
    if part == p[0] {
        0
    } else if part == p[1] {
        1
    } else if part == p[2] {
        2
    } else if part == p[3] {
        3
    } else if part == p[4] {
        4
    } else if part == p[5] {
        5
    } else if part == p[6] {
        6
    } else if part == p[7] {
        7
    } else if part == p[8] {
        8
    } else if part == p[9] {
        9
    } else {
        10
    }
}

proof fn lemma_parts_differ(i: int, j: int)
    requires
        0 <= i < 11,
        0 <= j < 11,
        part_names()[i] == part_names()[j],
    ensures
        i == j,
{
    reveal_strlit("input_layernorm");
    reveal_strlit("post_attention_layernorm");
    reveal_strlit("self_attn.q_proj");
    reveal_strlit("self_attn.k_proj");
    reveal_strlit("self_attn.v_proj");
    reveal_strlit("self_attn.o_proj");
    reveal_strlit("self_attn.q_norm");
    reveal_strlit("self_attn.k_norm");
    reveal_strlit("mlp.gate_proj");
    reveal_strlit("mlp.up_proj");
    reveal_strlit("mlp.down_proj");
    let p = part_names();
    assert(p[i].len() == p[j].len());
    assert(p[i][10] == p[j][10]);
    assert(p[i][4] == p[j][4]);
    if 2 <= i <= 7 && 2 <= j <= 7 {
        assert(p[i][12] == p[j][12]);
    }
}

/// What the names are that a file of so many layers may hold.
proof fn lemma_among(layers: nat, parts: nat, name: Seq<char>)
    requires
        parts <= 11,
    ensures
        candidates(layers, parts).contains(name) <==> fixed_name(name) || exists|l: nat, k: nat|
            among(l, k, layers, parts) && name == #[trigger] layer_name(l, part_names()[k as int]),
    decreases layers, parts,
{
    let all = candidates(layers, parts);
    if parts > 0 {
        let before = candidates(layers, (parts - 1) as nat);
        let last = layer_name(layers, part_names()[parts - 1]);
        lemma_among(layers, (parts - 1) as nat, name);
        assert(all == before.push(last));
        if all.contains(name) {
            let i = choose|i: int| 0 <= i < all.len() && all[i] == name;
            if i < before.len() {
                assert(before[i] == name);
                assert(before.contains(name));
                if !fixed_name(name) {
                    let (l, k) = choose|l: nat, k: nat|
                        among(l, k, layers, (parts - 1) as nat) && name == #[trigger] layer_name(
                            l,
                            part_names()[k as int],
                        );
                    assert(among(l, k, layers, parts));
                }
            } else {
                assert(among(layers, (parts - 1) as nat, layers, parts));
            }
        }
        if fixed_name(name) || exists|l: nat, k: nat|
            among(l, k, layers, parts) && name == #[trigger] layer_name(l, part_names()[k as int]) {
            if before.contains(name) {
                let i = choose|i: int| 0 <= i < before.len() && before[i] == name;
                assert(all[i] == name);
            } else {
                let (l, k) = choose|l: nat, k: nat|
                    among(l, k, layers, parts) && name == #[trigger] layer_name(
                        l,
                        part_names()[k as int],
                    );
                assert(!among(l, k, layers, (parts - 1) as nat));
                assert(all[before.len() as int] == name);
            }
        }
    } else if layers > 0 {
        lemma_among((layers - 1) as nat, 11, name);
        assert forall|l: nat, k: nat|
            among(l, k, layers, 0) == among(l, k, (layers - 1) as nat, 11) by {}
    } else {
        assert(all[0] == "model.embed_tokens.weight"@);
        assert(all[1] == "model.norm.weight"@);
        assert(all[2] == "lm_head.weight"@);
    }
}

/// A file may hold each name once.
proof fn lemma_candidates_once(layers: nat, parts: nat)
    requires
        parts <= 11,
        layers <= usize::MAX,
    ensures
        candidates(layers, parts).no_duplicates(),
    decreases layers, parts,
{
    if parts > 0 {
        let before = candidates(layers, (parts - 1) as nat);
        let part = part_names()[parts - 1];
        let last = layer_name(layers, part);
        lemma_candidates_once(layers, (parts - 1) as nat);
        lemma_among(layers, (parts - 1) as nat, last);
        if before.contains(last) {
            if fixed_name(last) {
                lemma_fixed(last);
            } else {
                let (l, k) = choose|l: nat, k: nat|
                    among(l, k, layers, (parts - 1) as nat) && last == #[trigger] layer_name(
                        l,
                        part_names()[k as int],
                    );
                lemma_layer_part(layers, part);
                lemma_layer_part(l, part_names()[k as int]);
                lemma_dec(layers);
                lemma_dec(l);
                lemma_parts_differ(k as int, parts - 1);
            }
        }
    } else if layers > 0 {
        lemma_candidates_once((layers - 1) as nat, 11);
    } else {
        reveal_strlit("model.embed_tokens.weight");
        reveal_strlit("model.norm.weight");
        reveal_strlit("lm_head.weight");
        let all = candidates(layers, parts);
        assert(all[0].len() == 25 && all[1].len() == 17 && all[2].len() == 14);
    }
}

proof fn lemma_listed_once(v: GgufView, names: Seq<Seq<char>>)
    requires
        names.no_duplicates(),
    ensures
        listed(v, names).no_duplicates(),
    decreases names.len(),
{
    if names.len() > 0 {
        let d = names.drop_last();
        let l = listed(v, d);
        lemma_listed_once(v, d);
        assert forall|i: int| 0 <= i < l.len() implies l[i] != names.last() by {
            lemma_listed_has(v, d, i);
            let k = choose|k: int| 0 <= k < d.len() && d[k] == l[i];
            assert(names[k] == l[i]);
        }
    }
}

/// Every tensor that a file has is listed under its name.
proof fn lemma_has_listed(v: GgufView, names: Seq<Seq<char>>, name: Seq<char>)
    requires
        names.contains(name),
        v.has(name),
    ensures
        listed(v, names).contains(name),
    decreases names.len(),
{
    let d = names.drop_last();
    let l = listed(v, d);
    if names.last() == name {
        assert(l.push(name)[l.len() as int] == name);
    } else {
        let k = choose|k: int| 0 <= k < names.len() && names[k] == name;
        assert(d[k] == name);
        lemma_has_listed(v, d, name);
        let i = choose|i: int| 0 <= i < l.len() && l[i] == name;
        if v.has(names.last()) {
            assert(l.push(names.last())[i] == name);
        }
    }
}

/// The name of a part of a layer names that layer and that part.
pub proof fn lemma_layer_part(layer: nat, part: Seq<char>)
    requires
        layer <= usize::MAX,
    ensures
        layer_part(layer_name(layer, part)) == Some((dec(layer), part)),
        gguf_name(layer_name(layer, part)) == match gguf_part(part) {
            Some(target) => Some("blk."@ + dec(layer) + "."@ + target + ".weight"@),
            None => None,
        },
{
    reveal_strlit("model.layers.");
    reveal_strlit(".");
    reveal_strlit("model.embed_tokens.weight");
    reveal_strlit("model.norm.weight");
    reveal_strlit("lm_head.weight");
    let name = layer_name(layer, part);
    let numeral = dec(layer);
    let prefix = "model.layers."@;
    let rest = name.skip(prefix.len() as int);
    let tail = part + ".weight"@;
    lemma_dec(layer);
    assert(name.take(prefix.len() as int) =~= prefix);
    assert(rest =~= numeral + "."@ + tail);
    let k = numeral.len() as int;
    assert forall|i: int| 0 <= i < k implies rest[i] != '.' by {
        assert(rest[i] == numeral[i]);
        assert('0' <= numeral[i]);
    }
    assert(rest[k] == "."@[0]);
    lemma_first_of(rest, '.', k);
    assert(rest.take(k) =~= numeral);
    assert(rest.skip(k + 1) =~= tail);
    assert(tail.skip(tail.len() - ".weight"@.len()) =~= ".weight"@);
    assert(tail.take(tail.len() - ".weight"@.len()) =~= part);
    assert(name[6] == prefix[6]);
    assert(name[1] == prefix[1]);
}

/// Every name that a model may have has a counterpart in GGUF.
pub proof fn lemma_candidates_known(layers: nat, parts: nat, i: int)
    requires
        layers <= usize::MAX,
        parts <= 11,
        0 <= i < candidates(layers, parts).len(),
    ensures
        gguf_name(candidates(layers, parts)[i]) is Some,
    decreases layers, parts,
{
    if parts > 0 {
        if i < candidates(layers, (parts - 1) as nat).len() {
            lemma_candidates_known(layers, (parts - 1) as nat, i);
        } else {
            lemma_layer_part(layers, part_names()[parts - 1]);
        }
    } else if layers > 0 {
        lemma_candidates_known((layers - 1) as nat, 11, i);
    }
}

} // verus!
