//! How a GGUF file is written, and that what was written is what is read.
//!
//! A file is the four bytes `GGUF`, the version, the numbers of tensors and of metadata pairs, the
//! pairs and the tensor descriptions. Every number is little-endian; negative numbers are in two's
//! complement; a text is preceded by its length in bytes.

use vstd::prelude::*;
use vstd::utf8::*;

use crate::bytes::{
    le16, le32, le64, lemma_word_read_back, signed16, signed32, signed64, signed8, words_bytes,
};
use crate::dequant::dequantized;
use crate::error::ErrorView;
use crate::gguf::{
    aligned, alignment, block_of, blocks_for, gguf, gguf_name, gguf_part, info_at, infos_at, items_at,
    laid_out, lemma_layer_part, long_at, pair_at, pairs_at, sizes_at, string_at, unknown_type,
    value_at, word_at, GgufView, InfoView, MetaView, GGUF_MAGIC,
};
use crate::shape::{countable, numel};
use crate::source::{header, layer_name, RawDType, RawView};
use crate::table::entry;
use crate::text::dec;

verus! {

/// A metadata value with the width in which it is written.
pub enum Datum {
    U8(u8),
    I8(i8),
    U16(u16),
    I16(i16),
    U32(u32),
    I32(i32),
    Single(u32),
    Bool(bool),
    Text(Seq<char>),
    /// Values of one type, given by its number.
    List(u32, Seq<Datum>),
    U64(u64),
    I64(i64),
    Double(u64),
}

/// The `k` bytes of `n`, least significant first.
#[verifier::opaque]
pub open spec fn little(n: int, k: nat) -> Seq<u8>
    decreases k,
{
    if k == 0 {
        seq![]
    } else {
        seq![(n % 0x100) as u8] + little(n / 0x100, (k - 1) as nat)
    }
}

/// A text after its length.
pub open spec fn written_text(s: Seq<char>) -> Seq<u8> {
    little(encode_utf8(s).len() as int, 8) + encode_utf8(s)
}

impl Datum {
    /// The number of the value's type.
    pub open spec fn tag(self) -> u32 {
        match self {
            Datum::U8(_) => 0,
            Datum::I8(_) => 1,
            Datum::U16(_) => 2,
            Datum::I16(_) => 3,
            Datum::U32(_) => 4,
            Datum::I32(_) => 5,
            Datum::Single(_) => 6,
            Datum::Bool(_) => 7,
            Datum::Text(_) => 8,
            Datum::List(_, _) => 9,
            Datum::U64(_) => 10,
            Datum::I64(_) => 11,
            Datum::Double(_) => 12,
        }
    }

    /// The bytes of the value.
    pub open spec fn written(self) -> Seq<u8>
        decreases self, 0nat,
    {
        match self {
            Datum::U8(v) => little(v as int, 1),
            Datum::I8(v) => little(v as int, 1),
            Datum::U16(v) => little(v as int, 2),
            Datum::I16(v) => little(v as int, 2),
            Datum::U32(v) => little(v as int, 4),
            Datum::I32(v) => little(v as int, 4),
            Datum::Single(v) => little(v as int, 4),
            Datum::Bool(v) => seq![if v { 1u8 } else { 0u8 }],
            Datum::Text(s) => written_text(s),
            Datum::List(tag, items) => little(tag as int, 4) + little(items.len() as int, 8)
                + written_items(items, items.len()),
            Datum::U64(v) => little(v as int, 8),
            Datum::I64(v) => little(v as int, 8),
            Datum::Double(v) => little(v as int, 8),
        }
    }

    /// The value as a number, a text or a list.
    pub open spec fn meaning(self) -> MetaView
        decreases self,
    {
        match self {
            Datum::U8(v) => MetaView::U64(v as u64),
            Datum::I8(v) => MetaView::I64(v as i64),
            Datum::U16(v) => MetaView::U64(v as u64),
            Datum::I16(v) => MetaView::I64(v as i64),
            Datum::U32(v) => MetaView::U64(v as u64),
            Datum::I32(v) => MetaView::I64(v as i64),
            Datum::Single(v) => MetaView::Single(v),
            Datum::Bool(v) => MetaView::U64(if v { 1 } else { 0 }),
            Datum::Text(s) => MetaView::Text(s),
            Datum::List(_, items) => MetaView::Items(
                Seq::new(
                    items.len(),
                    |i: int|
                        if 0 <= i < items.len() {
                            items[i].meaning()
                        } else {
                            arbitrary()
                        },
                ),
            ),
            Datum::U64(v) => MetaView::U64(v),
            Datum::I64(v) => MetaView::I64(v),
            Datum::Double(v) => MetaView::Double(v),
        }
    }

    /// Whether the lists are of one type each and everything can be counted.
    pub open spec fn writable(self) -> bool
        decreases self,
    {
        match self {
            Datum::Text(s) => encode_utf8(s).len() <= usize::MAX,
            Datum::List(tag, items) => items.len() <= usize::MAX && forall|i: int|
                0 <= i < items.len() ==> (#[trigger] items[i]).tag() == tag && items[i].writable(),
            _ => true,
        }
    }
}

/// The bytes of the first `n` of some values.
pub open spec fn written_items(items: Seq<Datum>, n: nat) -> Seq<u8>
    decreases items, n,
    when n <= items.len()
{
    if n == 0 {
        seq![]
    } else {
        written_items(items, (n - 1) as nat) + items[n - 1].written()
    }
}

/// Whether `part` stands in `b` at `p`.
#[verifier::opaque]
pub open spec fn stands(b: Seq<u8>, p: int, part: Seq<u8>) -> bool {
    &&& 0 <= p
    &&& p + part.len() <= b.len()
    &&& forall|i: int| 0 <= i < part.len() ==> b[p + i] == #[trigger] part[i]
}

proof fn lemma_stands_split(b: Seq<u8>, p: int, x: Seq<u8>, y: Seq<u8>)
    requires
        stands(b, p, x + y),
    ensures
        stands(b, p, x),
        stands(b, p + x.len(), y),
{
    reveal(stands);
    assert forall|i: int| 0 <= i < x.len() implies b[p + i] == #[trigger] x[i] by {
        assert((x + y)[i] == x[i]);
    }
    assert forall|i: int| 0 <= i < y.len() implies b[p + x.len() + i] == #[trigger] y[i] by {
        assert((x + y)[x.len() + i] == y[i]);
    }
}

proof fn lemma_little_len(n: int, k: nat)
    ensures
        little(n, k).len() == k,
    decreases k,
{
    reveal(little);
    if k > 0 {
        lemma_little_len(n / 0x100, (k - 1) as nat);
    }
}

proof fn lemma_little_step(b: Seq<u8>, p: int, n: int, k: nat)
    requires
        k > 0,
        stands(b, p, little(n, k)),
    ensures
        p < b.len(),
        b[p] == n % 0x100,
        stands(b, p + 1, little(n / 0x100, (k - 1) as nat)),
{
    reveal(little);
    reveal(stands);
    lemma_stands_split(b, p, seq![(n % 0x100) as u8], little(n / 0x100, (k - 1) as nat));
    assert(little(n, k) =~= seq![(n % 0x100) as u8] + little(n / 0x100, (k - 1) as nat));
    assert(b[p + 0] == seq![(n % 0x100) as u8][0]);
}

/// A number that was written in two bytes is read back.
proof fn lemma_short_back(b: Seq<u8>, p: int, n: int)
    requires
        -0x8000 <= n < 0x1_0000,
        stands(b, p, little(n, 2)),
    ensures
        p + 2 <= b.len(),
        le16(b, p) == n % 0x1_0000,
{
    reveal(stands);
    lemma_little_len(n, 2);
    lemma_little_step(b, p, n, 2);
    lemma_little_step(b, p + 1, n / 0x100, 1);
}

/// A number that was written in four bytes is read back.
proof fn lemma_word_back(b: Seq<u8>, p: int, n: int)
    requires
        stands(b, p, little(n, 4)),
    ensures
        p + 4 <= b.len(),
        le32(b, p) == n % 0x1_0000_0000,
{
    reveal(stands);
    lemma_little_len(n, 4);
    lemma_little_step(b, p, n, 4);
    lemma_little_step(b, p + 1, n / 0x100, 3);
    lemma_little_step(b, p + 2, n / 0x100 / 0x100, 2);
    lemma_little_step(b, p + 3, n / 0x100 / 0x100 / 0x100, 1);
}

proof fn lemma_little_skip(b: Seq<u8>, p: int, n: int)
    requires
        stands(b, p, little(n, 8)),
    ensures
        stands(b, p, little(n, 4)),
        stands(b, p + 4, little(n / 0x1_0000_0000, 4)),
{
    reveal(little);
    reveal(stands);
    lemma_little_step(b, p, n, 8);
    lemma_little_step(b, p + 1, n / 0x100, 7);
    lemma_little_step(b, p + 2, n / 0x100 / 0x100, 6);
    lemma_little_step(b, p + 3, n / 0x100 / 0x100 / 0x100, 5);
    assert(n / 0x100 / 0x100 / 0x100 / 0x100 == n / 0x1_0000_0000);
    lemma_little_len(n, 8);
    lemma_little_len(n, 4);
    reveal_with_fuel(little, 5);
    let w = little(n, 4);
    assert forall|i: int| 0 <= i < w.len() implies b[p + i] == #[trigger] w[i] by {
        assert(i == 0 || i == 1 || i == 2 || i == 3);
    }
}

/// A number that was written in eight bytes is read back.
proof fn lemma_long_back(b: Seq<u8>, p: int, n: int)
    requires
        -0x8000_0000_0000_0000 <= n < 0x1_0000_0000_0000_0000,
        stands(b, p, little(n, 8)),
    ensures
        p + 8 <= b.len(),
        le64(b, p) == n % 0x1_0000_0000_0000_0000,
{
    reveal(stands);
    lemma_little_len(n, 8);
    lemma_little_skip(b, p, n);
    lemma_word_back(b, p, n);
    lemma_word_back(b, p + 4, n / 0x1_0000_0000);
}

/// A word that was written is read back.
proof fn lemma_u32_back(b: Seq<u8>, p: int, n: u32)
    requires
        stands(b, p, little(n as int, 4)),
    ensures
        p + 4 <= b.len(),
        le32(b, p) == n,
        word_at(b, p) == Ok::<(u32, int), ErrorView>((n, p + 4)),
{
    lemma_word_back(b, p, n as int);
}

/// A long word that was written is read back.
proof fn lemma_u64_back(b: Seq<u8>, p: int, n: u64)
    requires
        stands(b, p, little(n as int, 8)),
    ensures
        p + 8 <= b.len(),
        le64(b, p) == n,
        long_at(b, p) == Ok::<(u64, int), ErrorView>((n, p + 8)),
{
    lemma_long_back(b, p, n as int);
}

/// A text that was written is read back.
pub proof fn lemma_text_back(b: Seq<u8>, p: int, s: Seq<char>)
    requires
        encode_utf8(s).len() <= usize::MAX,
        stands(b, p, written_text(s)),
    ensures
        string_at(b, p) == Ok::<(Seq<char>, int), ErrorView>(
            (s, p + written_text(s).len()),
        ),
{
    reveal(stands);
    let e = encode_utf8(s);
    lemma_little_len(e.len() as int, 8);
    lemma_stands_split(b, p, little(e.len() as int, 8), e);
    lemma_u64_back(b, p, e.len() as u64);
    assert(b.subrange(p + 8, p + 8 + e.len()) =~= e);
    encode_utf8_valid_utf8(s);
    encode_utf8_decode_utf8(s);
}

proof fn lemma_byte_back(b: Seq<u8>, p: int, d: Datum)
    requires
        d is U8 || d is I8 || d is Bool,
        d.writable(),
        stands(b, p, d.written()),
    ensures
        value_at(b, p, d.tag()) == Ok::<(MetaView, int), ErrorView>(
            (d.meaning(), p + d.written().len()),
        ),
{
    if d is U8 {
        let v = d->U8_0;
        lemma_little_len(v as int, 1);
        lemma_little_step(b, p, v as int, 1);
    }
    if d is I8 {
        let v = d->I8_0;
        lemma_little_len(v as int, 1);
        lemma_little_step(b, p, v as int, 1);
        assert(signed8(b[p]) == v);
    }
    if d is Bool {
        reveal(stands);
        assert(b[p + 0] == d.written()[0]);
    }
}

proof fn lemma_narrow_back(b: Seq<u8>, p: int, d: Datum)
    requires
        d is U16 || d is I16 || d is U32 || d is I32 || d is Single,
        d.writable(),
        stands(b, p, d.written()),
    ensures
        value_at(b, p, d.tag()) == Ok::<(MetaView, int), ErrorView>(
            (d.meaning(), p + d.written().len()),
        ),
{
    if d is U16 {
        let v = d->U16_0;
        lemma_little_len(v as int, 2);
        lemma_short_back(b, p, v as int);
    }
    if d is I16 {
        let v = d->I16_0;
        lemma_little_len(v as int, 2);
        lemma_short_back(b, p, v as int);
        assert(signed16(le16(b, p)) == v);
    }
    if d is U32 {
        let v = d->U32_0;
        lemma_little_len(v as int, 4);
        lemma_word_back(b, p, v as int);
    }
    if d is I32 {
        let v = d->I32_0;
        lemma_little_len(v as int, 4);
        lemma_word_back(b, p, v as int);
        assert(signed32(le32(b, p)) == v);
    }
    if d is Single {
        let v = d->Single_0;
        lemma_little_len(v as int, 4);
        lemma_word_back(b, p, v as int);
    }
}

proof fn lemma_wide_back(b: Seq<u8>, p: int, d: Datum)
    requires
        d is U64 || d is I64 || d is Double || d is Text,
        d.writable(),
        stands(b, p, d.written()),
    ensures
        value_at(b, p, d.tag()) == Ok::<(MetaView, int), ErrorView>(
            (d.meaning(), p + d.written().len()),
        ),
{
    if d is U64 {
        let v = d->U64_0;
        lemma_little_len(v as int, 8);
        lemma_long_back(b, p, v as int);
    }
    if d is I64 {
        let v = d->I64_0;
        lemma_little_len(v as int, 8);
        lemma_long_back(b, p, v as int);
        assert(signed64(le64(b, p)) == v);
    }
    if d is Double {
        let v = d->Double_0;
        lemma_little_len(v as int, 8);
        lemma_long_back(b, p, v as int);
    }
    if d is Text {
        lemma_text_back(b, p, d->Text_0);
    }
}

/// A metadata value that was written is read back as what it means, and the reading ends where the
/// writing did.
pub proof fn lemma_value_back(b: Seq<u8>, p: int, d: Datum)
    requires
        d.writable(),
        stands(b, p, d.written()),
    ensures
        value_at(b, p, d.tag()) == Ok::<(MetaView, int), ErrorView>(
            (d.meaning(), p + d.written().len()),
        ),
    decreases d, 0nat,
{
    if d is List {
        let (tag, items) = (d->List_0, d->List_1);
        let n = items.len();
        let rest = written_items(items, n);
        assert(d.written() == little(tag as int, 4) + little(n as int, 8) + rest);
        lemma_little_len(tag as int, 4);
        lemma_little_len(n as int, 8);
        lemma_stands_split(b, p, little(tag as int, 4) + little(n as int, 8), rest);
        lemma_stands_split(b, p, little(tag as int, 4), little(n as int, 8));
        lemma_u32_back(b, p, tag);
        lemma_u64_back(b, p + 4, n as u64);
        assert(n as u64 as usize == n);
        assert(le64(b, p + 4) == n);
        assert(le32(b, p) == tag);
        lemma_items_back(b, p + 12, tag, items, n);
        let got = Seq::new(n, |i: int| items[i].meaning());
        assert(d.meaning()->Items_0 =~= got);
    } else if d is U8 || d is I8 || d is Bool {
        lemma_byte_back(b, p, d);
    } else if d is U64 || d is I64 || d is Double || d is Text {
        lemma_wide_back(b, p, d);
    } else {
        lemma_narrow_back(b, p, d);
    }
}

proof fn lemma_items_back(b: Seq<u8>, p: int, tag: u32, items: Seq<Datum>, n: nat)
    requires
        forall|i: int|
            0 <= i < items.len() ==> (#[trigger] items[i]).tag() == tag && items[i].writable(),
        n <= items.len(),
        stands(b, p, written_items(items, n)),
    ensures
        items_at(b, p, tag, n) == Ok::<(Seq<MetaView>, int), ErrorView>(
            (
                Seq::new(n, |i: int| items[i].meaning()),
                p + written_items(items, n).len(),
            ),
        ),
    decreases items, n,
{
    let all = Seq::new(n, |i: int| items[i].meaning());
    if n == 0 {
        assert(all =~= seq![]);
    } else {
        let m = (n - 1) as nat;
        let item = items[n - 1];
        lemma_stands_split(b, p, written_items(items, m), item.written());
        lemma_items_back(b, p, tag, items, m);
        lemma_value_back(b, p + written_items(items, m).len(), item);
        assert(all =~= Seq::new(m, |i: int| items[i].meaning()).push(item.meaning()));
    }
}

/// The bytes of metadata pairs: a key, the type of the value, the value.
pub open spec fn written_pair(pair: (Seq<char>, Datum)) -> Seq<u8> {
    written_text(pair.0) + little(pair.1.tag() as int, 4) + pair.1.written()
}

/// The bytes of metadata pairs, one after the other.
pub open spec fn written_pairs(pairs: Seq<(Seq<char>, Datum)>) -> Seq<u8>
    decreases pairs.len(),
{
    if pairs.len() == 0 {
        seq![]
    } else {
        written_pairs(pairs.drop_last()) + written_pair(pairs.last())
    }
}

/// Metadata pairs by what their values mean.
pub open spec fn meanings(pairs: Seq<(Seq<char>, Datum)>) -> Seq<(Seq<char>, MetaView)> {
    pairs.map_values(|pair: (Seq<char>, Datum)| (pair.0, pair.1.meaning()))
}

/// Whether metadata pairs can be written.
#[verifier::opaque]
pub open spec fn writable_pairs(pairs: Seq<(Seq<char>, Datum)>) -> bool {
    forall|i: int|
        0 <= i < pairs.len() ==> encode_utf8((#[trigger] pairs[i]).0).len() <= usize::MAX
            && pairs[i].1.writable()
}

proof fn lemma_pair_from(
    b: Seq<u8>,
    p: int,
    key: (Seq<char>, int),
    tag: (u32, int),
    value: (MetaView, int),
)
    requires
        string_at(b, p) == Ok::<(Seq<char>, int), ErrorView>(key),
        word_at(b, key.1) == Ok::<(u32, int), ErrorView>(tag),
        value_at(b, tag.1, tag.0) == Ok::<(MetaView, int), ErrorView>(value),
    ensures
        pair_at(b, p) == Ok::<((Seq<char>, MetaView), int), ErrorView>(
            ((key.0, value.0), value.1),
        ),
{
}

proof fn lemma_pair_back(b: Seq<u8>, p: int, key: Seq<char>, d: Datum)
    requires
        encode_utf8(key).len() <= usize::MAX,
        d.writable(),
        stands(b, p, written_pair((key, d))),
    ensures
        pair_at(b, p) == Ok::<((Seq<char>, MetaView), int), ErrorView>(
            ((key, d.meaning()), p + written_pair((key, d)).len()),
        ),
{
    let text = written_text(key);
    let tag = little(d.tag() as int, 4);
    let value = d.written();
    let q = p + text.len();
    lemma_stands_split(b, p, text + tag, value);
    lemma_stands_split(b, p, text, tag);
    lemma_little_len(d.tag() as int, 4);
    lemma_text_back(b, p, key);
    lemma_u32_back(b, q, d.tag());
    lemma_value_back(b, q + 4, d);
    assert(written_pair((key, d)).len() == text.len() + 4 + value.len());
    lemma_pair_from(
        b,
        p,
        (key, q),
        (d.tag(), q + 4),
        (d.meaning(), q + 4 + value.len()),
    );
}

proof fn lemma_pairs_grow(
    b: Seq<u8>,
    p: int,
    n: nat,
    pairs: (Seq<(Seq<char>, MetaView)>, int),
    pair: ((Seq<char>, MetaView), int),
)
    requires
        pairs_at(b, p, n) == Ok::<(Seq<(Seq<char>, MetaView)>, int), ErrorView>(pairs),
        pair_at(b, pairs.1) == Ok::<((Seq<char>, MetaView), int), ErrorView>(pair),
    ensures
        pairs_at(b, p, n + 1) == Ok::<(Seq<(Seq<char>, MetaView)>, int), ErrorView>(
            (pairs.0.push(pair.0), pair.1),
        ),
{
}

proof fn lemma_last_pair(pairs: Seq<(Seq<char>, Datum)>)
    requires
        writable_pairs(pairs),
        pairs.len() > 0,
    ensures
        writable_pairs(pairs.drop_last()),
        encode_utf8(pairs.last().0).len() <= usize::MAX,
        pairs.last().1.writable(),
        meanings(pairs) == meanings(pairs.drop_last()).push(
            (pairs.last().0, pairs.last().1.meaning()),
        ),
{
    reveal(writable_pairs);
    let first = pairs.drop_last();
    assert forall|i: int| 0 <= i < first.len() implies encode_utf8((#[trigger] first[i]).0).len()
        <= usize::MAX && first[i].1.writable() by {
        assert(first[i] == pairs[i]);
    }
    assert(pairs[pairs.len() - 1] == pairs.last());
    assert(meanings(pairs) =~= meanings(first).push((pairs.last().0, pairs.last().1.meaning())));
}

/// Metadata pairs that were written are read back, in order.
pub proof fn lemma_pairs_back(b: Seq<u8>, p: int, pairs: Seq<(Seq<char>, Datum)>)
    requires
        writable_pairs(pairs),
        stands(b, p, written_pairs(pairs)),
    ensures
        pairs_at(b, p, pairs.len()) == Ok::<(Seq<(Seq<char>, MetaView)>, int), ErrorView>(
            (meanings(pairs), p + written_pairs(pairs).len()),
        ),
    decreases pairs.len(),
{
    if pairs.len() == 0 {
        assert(meanings(pairs) =~= seq![]);
    } else {
        let (first, (key, d)) = (pairs.drop_last(), pairs.last());
        let q = p + written_pairs(first).len();
        let end = q + written_pair((key, d)).len();
        lemma_last_pair(pairs);
        lemma_stands_split(b, p, written_pairs(first), written_pair((key, d)));
        lemma_pairs_back(b, p, first);
        lemma_pair_back(b, q, key, d);
        lemma_pairs_grow(b, p, first.len(), (meanings(first), q), ((key, d.meaning()), end));
    }
}

/// The bytes of sizes, the last of a row-major shape first.
pub open spec fn written_sizes(sizes: Seq<usize>) -> Seq<u8>
    decreases sizes.len(),
{
    if sizes.len() == 0 {
        seq![]
    } else {
        written_sizes(sizes.drop_last()) + little(sizes.last() as int, 8)
    }
}

proof fn lemma_sizes_back(b: Seq<u8>, p: int, sizes: Seq<usize>)
    requires
        stands(b, p, written_sizes(sizes)),
    ensures
        sizes_at(b, p, sizes.len()) == Ok::<(Seq<usize>, int), ErrorView>(
            (sizes, p + written_sizes(sizes).len()),
        ),
    decreases sizes.len(),
{
    if sizes.len() == 0 {
        assert(sizes =~= seq![]);
    } else {
        let first = sizes.drop_last();
        let n = sizes.last() as int;
        lemma_stands_split(b, p, written_sizes(first), little(n, 8));
        lemma_little_len(n, 8);
        lemma_sizes_back(b, p, first);
        lemma_u64_back(b, p + written_sizes(first).len(), n as u64);
        assert(sizes =~= first.push(sizes.last()));
    }
}

/// The bytes of a tensor description: its name, how many sizes it has, the sizes with the
/// fastest-varying first, its type and where its data lie.
pub open spec fn written_info(info: (Seq<char>, InfoView)) -> Seq<u8> {
    written_text(info.0) + little(info.1.shape.len() as int, 4) + written_sizes(
        info.1.shape.reverse(),
    ) + little(info.1.ggml_type as int, 4) + little(info.1.offset as int, 8)
}

/// The bytes of tensor descriptions, one after the other.
pub open spec fn written_infos(infos: Seq<(Seq<char>, InfoView)>) -> Seq<u8>
    decreases infos.len(),
{
    if infos.len() == 0 {
        seq![]
    } else {
        written_infos(infos.drop_last()) + written_info(infos.last())
    }
}

/// Whether tensor descriptions can be written.
pub open spec fn writable_infos(infos: Seq<(Seq<char>, InfoView)>) -> bool {
    forall|i: int|
        0 <= i < infos.len() ==> encode_utf8((#[trigger] infos[i]).0).len() <= usize::MAX
            && infos[i].1.shape.len() <= u32::MAX && countable(infos[i].1.shape.reverse())
}

proof fn lemma_info_from(
    b: Seq<u8>,
    p: int,
    name: (Seq<char>, int),
    n: u32,
    sizes: (Seq<usize>, int),
    ggml_type: u32,
    offset: u64,
)
    requires
        string_at(b, p) == Ok::<(Seq<char>, int), ErrorView>(name),
        word_at(b, name.1) == Ok::<(u32, int), ErrorView>((n, name.1 + 4)),
        sizes_at(b, name.1 + 4, n as nat) == Ok::<(Seq<usize>, int), ErrorView>(sizes),
        word_at(b, sizes.1) == Ok::<(u32, int), ErrorView>((ggml_type, sizes.1 + 4)),
        long_at(b, sizes.1 + 4) == Ok::<(u64, int), ErrorView>((offset, sizes.1 + 12)),
        countable(sizes.0),
    ensures
        info_at(b, p) == Ok::<((Seq<char>, InfoView), int), ErrorView>(
            (
                (name.0, InfoView { ggml_type, shape: sizes.0.reverse(), offset }),
                sizes.1 + 12,
            ),
        ),
{
}

proof fn lemma_info_back(b: Seq<u8>, p: int, info: (Seq<char>, InfoView))
    requires
        encode_utf8(info.0).len() <= usize::MAX,
        info.1.shape.len() <= u32::MAX,
        countable(info.1.shape.reverse()),
        stands(b, p, written_info(info)),
    ensures
        info_at(b, p) == Ok::<((Seq<char>, InfoView), int), ErrorView>(
            (info, p + written_info(info).len()),
        ),
{
    let (name, v) = info;
    let sizes = v.shape.reverse();
    let n = v.shape.len() as int;
    let text = written_text(name);
    let (a, c, e, f) = (
        little(n, 4),
        written_sizes(sizes),
        little(v.ggml_type as int, 4),
        little(v.offset as int, 8),
    );
    lemma_stands_split(b, p, text + a + c + e, f);
    lemma_stands_split(b, p, text + a + c, e);
    lemma_stands_split(b, p, text + a, c);
    lemma_stands_split(b, p, text, a);
    lemma_little_len(n, 4);
    lemma_little_len(v.ggml_type as int, 4);
    lemma_little_len(v.offset as int, 8);
    lemma_text_back(b, p, name);
    let q = p + text.len();
    lemma_u32_back(b, q, n as u32);
    lemma_sizes_back(b, q + 4, sizes);
    lemma_u32_back(b, q + 4 + c.len(), v.ggml_type);
    lemma_u64_back(b, q + 8 + c.len(), v.offset);
    assert(sizes.reverse() =~= v.shape);
    assert(written_info(info).len() == text.len() + 16 + c.len());
    lemma_info_from(
        b,
        p,
        (name, q),
        n as u32,
        (sizes, q + 4 + c.len()),
        v.ggml_type,
        v.offset,
    );
}

/// Tensor descriptions that were written are read back, in order.
pub proof fn lemma_infos_back(b: Seq<u8>, p: int, infos: Seq<(Seq<char>, InfoView)>)
    requires
        writable_infos(infos),
        stands(b, p, written_infos(infos)),
    ensures
        infos_at(b, p, infos.len()) == Ok::<
            (Seq<(Seq<char>, InfoView)>, int),
            ErrorView,
        >((infos, p + written_infos(infos).len())),
    decreases infos.len(),
{
    if infos.len() == 0 {
        assert(infos =~= seq![]);
    } else {
        let first = infos.drop_last();
        lemma_stands_split(b, p, written_infos(first), written_info(infos.last()));
        assert forall|i: int| 0 <= i < first.len() implies encode_utf8(
            (#[trigger] first[i]).0,
        ).len() <= usize::MAX && first[i].1.shape.len() <= u32::MAX && countable(
            first[i].1.shape.reverse(),
        ) by {
            assert(first[i] == infos[i]);
        }
        assert(infos.last() == infos[infos.len() - 1]);
        lemma_infos_back(b, p, first);
        lemma_info_back(b, p + written_infos(first).len(), infos.last());
        assert(infos =~= first.push(infos.last()));
    }
}

/// The bytes of a file before its data.
pub open spec fn written_head(
    pairs: Seq<(Seq<char>, Datum)>,
    infos: Seq<(Seq<char>, InfoView)>,
) -> Seq<u8> {
    encode_utf8("GGUF"@) + little(3, 4) + little(infos.len() as int, 8) + little(
        pairs.len() as int,
        8,
    ) + written_pairs(pairs) + written_infos(infos)
}

/// A file that was written is read back: its metadata and its tensor descriptions are those that
/// were written, whatever data follow.
pub proof fn lemma_file_back(
    b: Seq<u8>,
    pairs: Seq<(Seq<char>, Datum)>,
    infos: Seq<(Seq<char>, InfoView)>,
)
    requires
        pairs.len() <= usize::MAX,
        infos.len() <= usize::MAX,
        writable_pairs(pairs),
        writable_infos(infos),
        stands(b, 0, written_head(pairs, infos)),
    ensures
        gguf(b) == laid_out(meanings(pairs), infos, written_head(pairs, infos).len() as int),
{
    lemma_file_parts(b, pairs, infos);
    lemma_file_from(
        b,
        (infos.len() as u64, pairs.len() as u64),
        (meanings(pairs), 24 + written_pairs(pairs).len() as int),
        (infos, written_head(pairs, infos).len() as int),
    );
}

proof fn lemma_file_parts(
    b: Seq<u8>,
    pairs: Seq<(Seq<char>, Datum)>,
    infos: Seq<(Seq<char>, InfoView)>,
)
    requires
        pairs.len() <= usize::MAX,
        infos.len() <= usize::MAX,
        writable_pairs(pairs),
        writable_infos(infos),
        stands(b, 0, written_head(pairs, infos)),
    ensures
        b.len() >= 24,
        le32(b, 0) == GGUF_MAGIC,
        le32(b, 4) == 3,
        le64(b, 8) == infos.len() as u64,
        le64(b, 16) == pairs.len() as u64,
        (pairs.len() as u64 as usize) as nat == pairs.len(),
        (infos.len() as u64 as usize) as nat == infos.len(),
        pairs_at(b, 24, pairs.len()) == Ok::<(Seq<(Seq<char>, MetaView)>, int), ErrorView>(
            (meanings(pairs), 24 + written_pairs(pairs).len() as int),
        ),
        infos_at(b, 24 + written_pairs(pairs).len() as int, infos.len()) == Ok::<
            (Seq<(Seq<char>, InfoView)>, int),
            ErrorView,
        >((infos, written_head(pairs, infos).len() as int)),
{
    lemma_head_stands(b, pairs, infos);
    lemma_head_counts(b, pairs.len(), infos.len());
    lemma_pairs_back(b, 24, pairs);
    lemma_infos_back(b, 24 + written_pairs(pairs).len() as int, infos);
}

proof fn lemma_head_counts(b: Seq<u8>, n_pairs: nat, n_infos: nat)
    requires
        n_pairs <= usize::MAX,
        n_infos <= usize::MAX,
        stands(b, 4, little(3, 4)),
        stands(b, 8, little(n_infos as int, 8)),
        stands(b, 16, little(n_pairs as int, 8)),
    ensures
        le32(b, 4) == 3,
        le64(b, 8) == n_infos as u64,
        le64(b, 16) == n_pairs as u64,
        (n_pairs as u64 as usize) as nat == n_pairs,
        (n_infos as u64 as usize) as nat == n_infos,
{
    lemma_u32_back(b, 4, 3);
    lemma_u64_back(b, 8, n_infos as u64);
    lemma_u64_back(b, 16, n_pairs as u64);
}

proof fn lemma_file_from(
    b: Seq<u8>,
    counts: (u64, u64),
    meta: (Seq<(Seq<char>, MetaView)>, int),
    infos: (Seq<(Seq<char>, InfoView)>, int),
)
    requires
        b.len() >= 24,
        le32(b, 0) == GGUF_MAGIC,
        le32(b, 4) == 3,
        le64(b, 8) == counts.0,
        le64(b, 16) == counts.1,
        pairs_at(b, 24, (counts.1 as usize) as nat) == Ok::<
            (Seq<(Seq<char>, MetaView)>, int),
            ErrorView,
        >(meta),
        infos_at(b, meta.1, (counts.0 as usize) as nat) == Ok::<
            (Seq<(Seq<char>, InfoView)>, int),
            ErrorView,
        >(infos),
    ensures
        gguf(b) == laid_out(meta.0, infos.0, infos.1),
{
}

proof fn lemma_head_stands(
    b: Seq<u8>,
    pairs: Seq<(Seq<char>, Datum)>,
    infos: Seq<(Seq<char>, InfoView)>,
)
    requires
        stands(b, 0, written_head(pairs, infos)),
    ensures
        b.len() >= 24,
        le32(b, 0) == GGUF_MAGIC,
        stands(b, 4, little(3, 4)),
        stands(b, 8, little(infos.len() as int, 8)),
        stands(b, 16, little(pairs.len() as int, 8)),
        stands(b, 24, written_pairs(pairs)),
        stands(b, 24 + written_pairs(pairs).len() as int, written_infos(infos)),
        written_head(pairs, infos).len() == 24 + written_pairs(pairs).len() + written_infos(
            infos,
        ).len(),
{
    reveal(stands);
    let (a, c) = (little(infos.len() as int, 8), little(pairs.len() as int, 8));
    let (x, y) = (written_pairs(pairs), written_infos(infos));
    let magic = encode_utf8("GGUF"@);
    lemma_magic();
    lemma_little_len(3, 4);
    lemma_little_len(infos.len() as int, 8);
    lemma_little_len(pairs.len() as int, 8);
    lemma_stands_split(b, 0, magic + little(3, 4) + a + c + x, y);
    lemma_stands_split(b, 0, magic + little(3, 4) + a + c, x);
    lemma_stands_split(b, 0, magic + little(3, 4) + a, c);
    lemma_stands_split(b, 0, magic + little(3, 4), a);
    lemma_stands_split(b, 0, magic, little(3, 4));
    assert forall|i: int| 0 <= i < 4 implies b[i] == #[trigger] magic[i] by {
        assert(b[0int + i] == magic[i]);
    }
    assert(magic[0] == 0x47 && magic[1] == 0x47 && magic[2] == 0x55 && magic[3] == 0x46);
}

/// The first word of a file is its format's name.
proof fn lemma_magic()
    ensures
        encode_utf8("GGUF"@) == seq![0x47u8, 0x47u8, 0x55u8, 0x46u8],
{
    reveal_strlit("GGUF");
    let s = "GGUF"@;
    assert(is_ascii_chars(s));
    is_ascii_chars_encode_utf8(s);
    let e = encode_utf8(s);
    assert(e.len() == 4);
    assert(s[0] as u8 == e[0] && s[1] as u8 == e[1] && s[2] as u8 == e[2] && s[3] as u8 == e[3]);
    assert(e =~= seq![0x47u8, 0x47u8, 0x55u8, 0x46u8]);
}

/// The data of a file begin at the first multiple of the alignment that is not before the end of
/// what comes before them.
pub proof fn lemma_aligned(p: int, a: int)
    requires
        p >= 0,
        a > 0,
    ensures
        p <= aligned(p, a) < p + a,
        exists|k: int| aligned(p, a) == #[trigger] (k * a),
{
    let (q, r) = (p / a, p % a);
    vstd::arithmetic::div_mod::lemma_fundamental_div_mod(p, a);
    vstd::arithmetic::div_mod::lemma_mod_bound(p, a);
    let k = if r == 0 {
        q
    } else {
        q + 1
    };
    assert(aligned(p, a) == k * a) by (nonlinear_arith)
        requires
            p == a * q + r,
            aligned(p, a) == if r == 0 {
                p
            } else {
                p - r + a
            },
            k == if r == 0 {
                q
            } else {
                q + 1
            },
    ;
}

/// The data that a tensor takes in a file are exactly what its weights need: with them every weight
/// is read, and with any less none is.
pub proof fn lemma_block_sizes(t: u32, data: Seq<u8>, n: nat)
    requires
        block_of(t) is Some,
    ensures
        ({
            let (elems, size) = block_of(t)->Some_0;
            &&& elems > 0
            &&& n % (elems as nat) == 0 && data.len() == blocks_for(n, elems as nat) * size
                ==> dequantized(t, data, n) is Ok && dequantized(t, data, n)->Ok_0.len() == n
            &&& n % (elems as nat) == 0 && data.len() < blocks_for(n, elems as nat) * size
                ==> dequantized(t, data, n) is Err
            &&& n % (elems as nat) != 0 ==> dequantized(t, data, n) is Err
        }),
{
    assert(n % 1 == 0 && n / 1 == n);
}

/// The types of weights that are read are those of which the size is known.
pub proof fn lemma_types(t: u32, data: Seq<u8>, n: nat)
    ensures
        block_of(t) is None ==> dequantized(t, data, n) == Err::<Seq<u32>, ErrorView>(
            unknown_type(t),
        ),
        block_of(t) is Some <==> exists|d: Seq<u8>, k: nat| #[trigger] dequantized(t, d, k) is Ok,
{
    if block_of(t) is Some {
        assert(dequantized(t, seq![], 0) is Ok);
    }
}

/// A tensor has as many blocks as it needs and no more: the last of them is not empty.
pub proof fn lemma_blocks(n: nat, block: nat)
    requires
        block > 0,
    ensures
        n <= blocks_for(n, block) * block < n + block,
{
    vstd::arithmetic::div_mod::lemma_fundamental_div_mod(n as int, block as int);
    vstd::arithmetic::div_mod::lemma_mod_bound(n as int, block as int);
    let (q, r) = ((n / block) as int, (n % block) as int);
    assert(n <= blocks_for(n, block) * block < n + block) by (nonlinear_arith)
        requires
            n == block * q + r,
            0 <= r < block,
            blocks_for(n, block) == if r == 0 {
                q
            } else {
                q + 1
            },
    ;
}

/// Whether the tensor of a layer that Hugging Face names with `tail` is the one that GGUF names
/// with `target`.
pub open spec fn named_as(layer: nat, tail: Seq<char>, target: Seq<char>) -> bool {
    gguf_name("model.layers."@ + dec(layer) + tail) == Some("blk."@ + dec(layer) + target)
}

proof fn lemma_named_as(
    layer: nat,
    part: Seq<char>,
    other: Seq<char>,
    tail: Seq<char>,
    target: Seq<char>,
)
    requires
        layer <= usize::MAX,
        gguf_part(part) == Some(other),
        "."@ + part + ".weight"@ == tail,
        "."@ + other + ".weight"@ == target,
    ensures
        named_as(layer, tail, target),
{
    lemma_layer_part(layer, part);
    assert(layer_name(layer, part) =~= "model.layers."@ + dec(layer) + tail);
    assert("blk."@ + dec(layer) + "."@ + other + ".weight"@ =~= "blk."@ + dec(layer) + target);
}

proof fn lemma_parts_differ()
    ensures
        gguf_part("input_layernorm"@) == Some("attn_norm"@),
        gguf_part("post_attention_layernorm"@) == Some("ffn_norm"@),
        gguf_part("self_attn.q_proj"@) == Some("attn_q"@),
        gguf_part("self_attn.k_proj"@) == Some("attn_k"@),
        gguf_part("self_attn.v_proj"@) == Some("attn_v"@),
        gguf_part("self_attn.o_proj"@) == Some("attn_output"@),
        gguf_part("self_attn.q_norm"@) == Some("attn_q_norm"@),
        gguf_part("self_attn.k_norm"@) == Some("attn_k_norm"@),
        gguf_part("mlp.gate_proj"@) == Some("ffn_gate"@),
        gguf_part("mlp.up_proj"@) == Some("ffn_up"@),
        gguf_part("mlp.down_proj"@) == Some("ffn_down"@),
{
    reveal_strlit("input_layernorm");
    reveal_strlit("post_attention_layernorm");
    reveal_strlit("self_attn.q_proj");
    reveal_strlit("self_attn.k_proj");
    reveal_strlit("self_attn.v_proj");
    reveal_strlit("self_attn.o_proj");
    reveal_strlit("self_attn.q_norm");
    reveal_strlit("self_attn.k_norm");
    reveal_strlit("mlp.gate_proj");
    reveal_strlit("mlp.up_proj");
    reveal_strlit("mlp.down_proj");
    assert("input_layernorm"@.len() == 15 && "post_attention_layernorm"@.len() == 24);
    assert("mlp.gate_proj"@.len() == 13 && "mlp.up_proj"@.len() == 11);
    assert("mlp.down_proj"@.len() == 13 && "self_attn.q_proj"@.len() == 16);
    assert("self_attn.k_proj"@.len() == 16 && "self_attn.v_proj"@.len() == 16);
    assert("self_attn.o_proj"@.len() == 16 && "self_attn.q_norm"@.len() == 16);
    assert("self_attn.k_norm"@.len() == 16);
    assert("self_attn.q_proj"@[10] == 'q' && "self_attn.k_proj"@[10] == 'k');
    assert("self_attn.v_proj"@[10] == 'v' && "self_attn.o_proj"@[10] == 'o');
    assert("self_attn.q_norm"@[10] == 'q' && "self_attn.k_norm"@[10] == 'k');
    assert("self_attn.q_norm"@[12] == 'n' && "self_attn.k_norm"@[12] == 'n');
    assert("self_attn.q_proj"@[12] == 'p' && "self_attn.k_proj"@[12] == 'p');
    assert("self_attn.v_proj"@[12] == 'p' && "self_attn.o_proj"@[12] == 'p');
    assert("mlp.gate_proj"@[4] == 'g' && "mlp.down_proj"@[4] == 'd');
}

/// What GGUF calls the tensors of a model, for every layer.
#[verifier::rlimit(60)]
pub proof fn lemma_names_in_files(layer: nat)
    requires
        layer <= usize::MAX,
    ensures
        named_as(layer, ".input_layernorm.weight"@, ".attn_norm.weight"@),
        named_as(layer, ".post_attention_layernorm.weight"@, ".ffn_norm.weight"@),
        named_as(layer, ".self_attn.q_proj.weight"@, ".attn_q.weight"@),
        named_as(layer, ".self_attn.k_proj.weight"@, ".attn_k.weight"@),
        named_as(layer, ".self_attn.v_proj.weight"@, ".attn_v.weight"@),
        named_as(layer, ".self_attn.o_proj.weight"@, ".attn_output.weight"@),
        named_as(layer, ".self_attn.q_norm.weight"@, ".attn_q_norm.weight"@),
        named_as(layer, ".self_attn.k_norm.weight"@, ".attn_k_norm.weight"@),
        named_as(layer, ".mlp.gate_proj.weight"@, ".ffn_gate.weight"@),
        named_as(layer, ".mlp.up_proj.weight"@, ".ffn_up.weight"@),
        named_as(layer, ".mlp.down_proj.weight"@, ".ffn_down.weight"@),
        gguf_name("model.embed_tokens.weight"@) == Some("token_embd.weight"@),
        gguf_name("model.norm.weight"@) == Some("output_norm.weight"@),
        gguf_name("lm_head.weight"@) == Some("output.weight"@),
{
    reveal_strlit(".");
    reveal_strlit(".weight");
    reveal_strlit("model.embed_tokens.weight");
    reveal_strlit("model.norm.weight");
    reveal_strlit("lm_head.weight");
    assert("model.norm.weight"@.len() != "model.embed_tokens.weight"@.len());
    lemma_parts_differ();
    reveal_strlit("input_layernorm");
    reveal_strlit("attn_norm");
    reveal_strlit(".input_layernorm.weight");
    reveal_strlit(".attn_norm.weight");
    assert("."@ + "input_layernorm"@ + ".weight"@ =~= ".input_layernorm.weight"@);
    assert("."@ + "attn_norm"@ + ".weight"@ =~= ".attn_norm.weight"@);
    lemma_named_as(
        layer,
        "input_layernorm"@,
        "attn_norm"@,
        ".input_layernorm.weight"@,
        ".attn_norm.weight"@,
    );
    reveal_strlit("post_attention_layernorm");
    reveal_strlit("ffn_norm");
    reveal_strlit(".post_attention_layernorm.weight");
    reveal_strlit(".ffn_norm.weight");
    assert("."@ + "post_attention_layernorm"@ + ".weight"@ =~= ".post_attention_layernorm.weight"@);
    assert("."@ + "ffn_norm"@ + ".weight"@ =~= ".ffn_norm.weight"@);
    lemma_named_as(
        layer,
        "post_attention_layernorm"@,
        "ffn_norm"@,
        ".post_attention_layernorm.weight"@,
        ".ffn_norm.weight"@,
    );
    reveal_strlit("self_attn.q_proj");
    reveal_strlit("attn_q");
    reveal_strlit(".self_attn.q_proj.weight");
    reveal_strlit(".attn_q.weight");
    assert("."@ + "self_attn.q_proj"@ + ".weight"@ =~= ".self_attn.q_proj.weight"@);
    assert("."@ + "attn_q"@ + ".weight"@ =~= ".attn_q.weight"@);
    lemma_named_as(
        layer,
        "self_attn.q_proj"@,
        "attn_q"@,
        ".self_attn.q_proj.weight"@,
        ".attn_q.weight"@,
    );
    reveal_strlit("self_attn.k_proj");
    reveal_strlit("attn_k");
    reveal_strlit(".self_attn.k_proj.weight");
    reveal_strlit(".attn_k.weight");
    assert("."@ + "self_attn.k_proj"@ + ".weight"@ =~= ".self_attn.k_proj.weight"@);
    assert("."@ + "attn_k"@ + ".weight"@ =~= ".attn_k.weight"@);
    lemma_named_as(
        layer,
        "self_attn.k_proj"@,
        "attn_k"@,
        ".self_attn.k_proj.weight"@,
        ".attn_k.weight"@,
    );
    reveal_strlit("self_attn.v_proj");
    reveal_strlit("attn_v");
    reveal_strlit(".self_attn.v_proj.weight");
    reveal_strlit(".attn_v.weight");
    assert("."@ + "self_attn.v_proj"@ + ".weight"@ =~= ".self_attn.v_proj.weight"@);
    assert("."@ + "attn_v"@ + ".weight"@ =~= ".attn_v.weight"@);
    lemma_named_as(
        layer,
        "self_attn.v_proj"@,
        "attn_v"@,
        ".self_attn.v_proj.weight"@,
        ".attn_v.weight"@,
    );
    reveal_strlit("self_attn.o_proj");
    reveal_strlit("attn_output");
    reveal_strlit(".self_attn.o_proj.weight");
    reveal_strlit(".attn_output.weight");
    assert("."@ + "self_attn.o_proj"@ + ".weight"@ =~= ".self_attn.o_proj.weight"@);
    assert("."@ + "attn_output"@ + ".weight"@ =~= ".attn_output.weight"@);
    lemma_named_as(
        layer,
        "self_attn.o_proj"@,
        "attn_output"@,
        ".self_attn.o_proj.weight"@,
        ".attn_output.weight"@,
    );
    reveal_strlit("self_attn.q_norm");
    reveal_strlit("attn_q_norm");
    reveal_strlit(".self_attn.q_norm.weight");
    reveal_strlit(".attn_q_norm.weight");
    assert("."@ + "self_attn.q_norm"@ + ".weight"@ =~= ".self_attn.q_norm.weight"@);
    assert("."@ + "attn_q_norm"@ + ".weight"@ =~= ".attn_q_norm.weight"@);
    lemma_named_as(
        layer,
        "self_attn.q_norm"@,
        "attn_q_norm"@,
        ".self_attn.q_norm.weight"@,
        ".attn_q_norm.weight"@,
    );
    reveal_strlit("self_attn.k_norm");
    reveal_strlit("attn_k_norm");
    reveal_strlit(".self_attn.k_norm.weight");
    reveal_strlit(".attn_k_norm.weight");
    assert("."@ + "self_attn.k_norm"@ + ".weight"@ =~= ".self_attn.k_norm.weight"@);
    assert("."@ + "attn_k_norm"@ + ".weight"@ =~= ".attn_k_norm.weight"@);
    lemma_named_as(
        layer,
        "self_attn.k_norm"@,
        "attn_k_norm"@,
        ".self_attn.k_norm.weight"@,
        ".attn_k_norm.weight"@,
    );
    reveal_strlit("mlp.gate_proj");
    reveal_strlit("ffn_gate");
    reveal_strlit(".mlp.gate_proj.weight");
    reveal_strlit(".ffn_gate.weight");
    assert("."@ + "mlp.gate_proj"@ + ".weight"@ =~= ".mlp.gate_proj.weight"@);
    assert("."@ + "ffn_gate"@ + ".weight"@ =~= ".ffn_gate.weight"@);
    lemma_named_as(
        layer,
        "mlp.gate_proj"@,
        "ffn_gate"@,
        ".mlp.gate_proj.weight"@,
        ".ffn_gate.weight"@,
    );
    reveal_strlit("mlp.up_proj");
    reveal_strlit("ffn_up");
    reveal_strlit(".mlp.up_proj.weight");
    reveal_strlit(".ffn_up.weight");
    assert("."@ + "mlp.up_proj"@ + ".weight"@ =~= ".mlp.up_proj.weight"@);
    assert("."@ + "ffn_up"@ + ".weight"@ =~= ".ffn_up.weight"@);
    lemma_named_as(
        layer,
        "mlp.up_proj"@,
        "ffn_up"@,
        ".mlp.up_proj.weight"@,
        ".ffn_up.weight"@,
    );
    reveal_strlit("mlp.down_proj");
    reveal_strlit("ffn_down");
    reveal_strlit(".mlp.down_proj.weight");
    reveal_strlit(".ffn_down.weight");
    assert("."@ + "mlp.down_proj"@ + ".weight"@ =~= ".mlp.down_proj.weight"@);
    assert("."@ + "ffn_down"@ + ".weight"@ =~= ".ffn_down.weight"@);
    lemma_named_as(
        layer,
        "mlp.down_proj"@,
        "ffn_down"@,
        ".mlp.down_proj.weight"@,
        ".ffn_down.weight"@,
    );
}

/// The header of a safetensors file that was written is read back, whatever data follow.
pub proof fn lemma_header_back(b: Seq<u8>, text: Seq<char>)
    requires
        encode_utf8(text).len() <= u64::MAX,
        stands(b, 0, written_text(text)),
    ensures
        header(b) == Some(text),
{
    let e = encode_utf8(text);
    lemma_little_len(e.len() as int, 8);
    lemma_stands_split(b, 0, little(e.len() as int, 8), e);
    lemma_u64_back(b, 0, e.len() as u64);
    reveal(stands);
    assert(b.subrange(8, 8 + e.len() as int) =~= e);
    encode_utf8_valid_utf8(text);
    encode_utf8_decode_utf8(text);
}

/// The data of a file begin at a multiple of the alignment that its metadata ask for, of 32 bytes
/// where they ask for none, right after the tensor descriptions.
pub proof fn lemma_data_start(
    meta: Seq<(Seq<char>, MetaView)>,
    tensors: Seq<(Seq<char>, InfoView)>,
    end: int,
    a: u64,
)
    requires
        end >= 0,
        a <= usize::MAX,
        laid_out(meta, tensors, end) is Ok,
        entry(meta, "general.alignment"@) == Some(MetaView::U64(a)) || entry(
            meta,
            "general.alignment"@,
        ) is None && a == 32,
    ensures
        ({
            let start = laid_out(meta, tensors, end)->Ok_0.data_start;
            &&& a > 0
            &&& end <= start < end + a
            &&& start as int % a as int == 0
        }),
        laid_out(meta, tensors, end)->Ok_0.tensors == tensors,
        laid_out(meta, tensors, end)->Ok_0.config.tie_word_embeddings <==> entry(
            tensors,
            "output.weight"@,
        ) is None,
{
    assert(alignment(meta) == a);
    lemma_aligned(end, a as int);
    let k = choose|k: int| aligned(end, a as int) == #[trigger] (k * a as int);
    vstd::arithmetic::div_mod::lemma_mod_multiples_basic(k, a as int);
}

/// Words that stand in the data of a file at a tensor's offset are the tensor's weights.
pub proof fn lemma_tensor_back(v: GgufView, name: Seq<char>, info: InfoView, w: Seq<u32>)
    requires
        gguf_name(name) is Some,
        entry(v.parts.tensors, gguf_name(name)->Some_0) == Some(info),
        info.ggml_type == 0,
        info.offset <= usize::MAX,
        numel(info.shape) == w.len(),
        stands(v.bytes, v.parts.data_start + info.offset, words_bytes(w)),
    ensures
        v.tensor(name) == Ok::<RawView, ErrorView>(
            (RawView { bytes: words_bytes(w), dtype: RawDType::F32, shape: info.shape }),
        ),
{
    reveal(stands);
    let start = v.parts.data_start + info.offset;
    let n = w.len();
    let end = start + 4 * n;
    assert(n % 1 == 0 && n / 1 == n);
    assert(blocks_for(n, 1) * 4 == 4 * n);
    let data = v.bytes.subrange(start, end);
    assert(data =~= words_bytes(w));
    let got = dequantized(0, data, n)->Ok_0;
    assert forall|i: int| 0 <= i < n implies got[i] == w[i] by {
        lemma_word_read_back(w, i);
    }
    assert(got =~= w);
}

} // verus!
