//! Format-agnostic access to model weights.

use vstd::prelude::*;
use vstd::utf8::*;

use crate::bytes::{le64, read64};
use crate::config::{Config, ConfigView};
use crate::error::{ErrorView, EyebrowseError, Result};
use crate::json::{
    array_at, escape, escaped, json_contents, keys_at, node_at, parse_json, parsed_json,
    read_array, read_text, read_unsigned, text_at, unsigned_at, Node, NodeView,
};
use crate::shape::numel;
use crate::table::{
    entry, is_sorted, lemma_entry, lemma_same_members, lemma_sorted, position, sort_names, sorted,
    texts,
};
use crate::text::{cat2, cat3, dec, same, text_of_utf8};

verus! {

/// Element type of a raw weight tensor, as stored on disk.
#[derive(Clone, Copy, Debug, PartialEq, Eq, Structural)]
pub enum RawDType {
    F32,
    F16,
    BF16,
    U8,
    I8,
    I32,
    I64,
}

impl RawDType {
    /// The size in bytes of one element.
    pub open spec fn bytes(self) -> nat {
        match self {
            RawDType::F32 | RawDType::I32 => 4,
            RawDType::F16 | RawDType::BF16 => 2,
            RawDType::U8 | RawDType::I8 => 1,
            RawDType::I64 => 8,
        }
    }
}

/// A weight tensor in its on-disk representation: little-endian, row-major bytes.
#[derive(Debug)]
pub struct RawTensor {
    pub bytes: Vec<u8>,
    pub dtype: RawDType,
    pub shape: Vec<usize>,
}

/// A [`RawTensor`] with its bytes and its shape as sequences.
#[verifier::ext_equal]
pub struct RawView {
    pub bytes: Seq<u8>,
    pub dtype: RawDType,
    pub shape: Seq<usize>,
}

impl View for RawTensor {
    type V = RawView;

    open spec fn view(&self) -> RawView {
        RawView { bytes: self.bytes@, dtype: self.dtype, shape: self.shape@ }
    }
}

impl RawView {
    /// Whether there are as many bytes as the shape and the element type take.
    pub open spec fn wf(self) -> bool {
        self.bytes.len() == numel(self.shape) * self.dtype.bytes()
    }
}

/// The Hugging Face name of a part of a layer.
pub open spec fn layer_name(layer: nat, part: Seq<char>) -> Seq<char> {
    "model.layers."@ + dec(layer) + "."@ + part + ".weight"@
}

/// A source of model weights, independent of the underlying file format.
pub trait WeightSource {
    /// The configuration of the model.
    spec fn spec_config(&self) -> ConfigView;

    /// The names that the source lists.
    spec fn spec_names(&self) -> Seq<Seq<char>>;

    /// The tensor of this name, where the source has it and can read it.
    spec fn spec_raw(&self, name: Seq<char>) -> Option<RawView>;

    /// Whether this is an error for a tensor that the source cannot give.
    spec fn spec_refusal(&self, name: Seq<char>, e: ErrorView) -> bool;

    fn config(&self) -> (r: &Config)
        ensures
            r@ == self.spec_config(),
    ;

    fn tensor_names(&self) -> (r: Vec<String>)
        ensures
            texts(r@) == self.spec_names(),
    ;

    /// Returns the named tensor's bytes (little-endian, row-major), dtype, and shape.
    fn raw(&self, name: &str) -> (r: Result<RawTensor>)
        ensures
            match r {
                Ok(t) => self.spec_raw(name@) == Some(t@) && t@.wf(),
                Err(e) => self.spec_raw(name@) is None && self.spec_refusal(name@, e@),
            },
    ;
}

/// The element type that the safetensors format gives this name, of those that are read.
pub open spec fn dtype_named(name: Seq<char>) -> Option<RawDType> {
    if name == "F32"@ {
        Some(RawDType::F32)
    } else if name == "F16"@ {
        Some(RawDType::F16)
    } else if name == "BF16"@ {
        Some(RawDType::BF16)
    } else if name == "U8"@ {
        Some(RawDType::U8)
    } else if name == "I8"@ {
        Some(RawDType::I8)
    } else if name == "I32"@ {
        Some(RawDType::I32)
    } else if name == "I64"@ {
        Some(RawDType::I64)
    } else {
        None
    }
}

/// Tells the element type that the safetensors format gives this name.
pub fn map_dtype(d: &str) -> (r: Result<RawDType>)
    ensures
        match r {
            Ok(t) => dtype_named(d@) == Some(t),
            Err(e) => dtype_named(d@) is None && e@ == ErrorView::UnsupportedConfig(
                "safetensors dtype "@ + d@,
            ),
        },
{
    if same(d, "F32") {
        Ok(RawDType::F32)
    } else if same(d, "F16") {
        Ok(RawDType::F16)
    } else if same(d, "BF16") {
        Ok(RawDType::BF16)
    } else if same(d, "U8") {
        Ok(RawDType::U8)
    } else if same(d, "I8") {
        Ok(RawDType::I8)
    } else if same(d, "I32") {
        Ok(RawDType::I32)
    } else if same(d, "I64") {
        Ok(RawDType::I64)
    } else {
        Err(EyebrowseError::UnsupportedConfig(cat2("safetensors dtype ", d)))
    }
}

/// A tensor of a safetensors file: its data, the name of its element type and its shape.
#[verifier::ext_equal]
pub struct ArchiveEntry {
    pub data: Seq<u8>,
    pub dtype: Seq<char>,
    pub shape: Seq<usize>,
}

/// `safetensors::SafeTensors`, the parsed header of a safetensors file with its data.
#[verifier::external_type_specification]
#[verifier::external_body]
pub struct ExSafeTensors<'data>(safetensors::SafeTensors<'data>);

/// What a parsed safetensors file holds, by the names of its tensors.
pub uninterp spec fn archive_contents(st: safetensors::SafeTensors<'_>) -> Map<
    Seq<char>,
    ArchiveEntry,
>;

/// What `safetensors::SafeTensors::deserialize` makes of the bytes of a file: what the file holds,
/// or nothing where it is refused.
pub uninterp spec fn archive(bytes: Seq<u8>) -> Option<Map<Seq<char>, ArchiveEntry>>;

/// The header of a safetensors file: after its length, in as many bytes, a text.
pub open spec fn header(bytes: Seq<u8>) -> Option<Seq<char>> {
    if bytes.len() < 8 || le64(bytes, 0) > bytes.len() - 8 {
        None
    } else {
        let part = bytes.subrange(8, 8 + le64(bytes, 0));
        if valid_utf8(part) {
            Some(decode_utf8(part))
        } else {
            None
        }
    }
}

/// Where a header has the end of a tensor's data.
pub open spec fn end_pointer(tensor: Seq<char>) -> Seq<char> {
    "/"@ + escaped(tensor) + "/data_offsets/1"@
}

/// Where a header has the end of a tensor's data when it lists the tensor's fields in order.
pub open spec fn listed_end_pointer(tensor: Seq<char>) -> Seq<char> {
    "/"@ + escaped(tensor) + "/2/1"@
}

/// Whether what a pointer reaches, if it is an unsigned integer, is one up to `len`.
pub open spec fn up_to(m: Map<Seq<char>, NodeView>, pointer: Seq<char>, len: nat) -> bool {
    match unsigned_at(m, pointer) {
        Some(e) => e <= len,
        None => true,
    }
}

/// Whether the data of a tensor of a header do not end behind byte `len`. A tensor is described by
/// an object, or by a list of its fields; other members of an object do not count.
pub open spec fn ends_by(m: Map<Seq<char>, NodeView>, tensor: Seq<char>, len: nat) -> bool {
    match m["/"@ + escaped(tensor)] {
        NodeView::Object => up_to(m, end_pointer(tensor), len),
        NodeView::Array(_) => up_to(m, listed_end_pointer(tensor), len),
        _ => true,
    }
}

/// Whether no tensor of a header ends behind byte `len`.
pub open spec fn bounded(m: Map<Seq<char>, NodeView>, len: nat) -> bool {
    m.dom().contains(""@) && m[""@] is Object ==> forall|tensor: Seq<char>|
        m.dom().contains("/"@ + #[trigger] escaped(tensor)) ==> ends_by(m, tensor, len)
}

/// Whether no tensor of a safetensors file ends behind the file.
pub open spec fn within(bytes: Seq<u8>) -> bool {
    match header(bytes) {
        Some(text) => match parsed_json(text) {
            Ok(m) => bounded(m, bytes.len()),
            Err(_) => true,
        },
        None => true,
    }
}

/// What the bytes of a safetensors file hold, or nothing where the file is refused.
pub open spec fn opened(bytes: Seq<u8>) -> Option<Map<Seq<char>, ArchiveEntry>> {
    if within(bytes) {
        archive(bytes)
    } else {
        None
    }
}

fn ends_within(document: &serde_json::Value, start: &str, rest: &str, len: usize) -> (r: bool)
    ensures
        r == up_to(json_contents(*document), start@ + rest@, len as nat),
{
    let at = cat2(start, rest);
    match read_unsigned(document, at.as_str()) {
        Some(e) => e <= len as u64,
        None => true,
    }
}

/// Tests whether no tensor of a header ends behind byte `len`.
fn header_bounded(document: &serde_json::Value, len: usize) -> (r: bool)
    ensures
        r == bounded(json_contents(*document), len as nat),
{
    let ghost m = json_contents(*document);
    let names = match keys_at(document, "") {
        Some(k) => k,
        None => return true,
    };
    proof {
        reveal_strlit("");
        assert forall|k: Seq<char>| #[trigger] texts(names@).contains(k) <==> m.dom().contains(
            "/"@ + escaped(k),
        ) by {
            assert(""@ + "/"@ + escaped(k) =~= "/"@ + escaped(k));
        }
    }
    let mut i: usize = 0;
    while i < names.len()
        invariant
            i <= names@.len(),
            m == json_contents(*document),
            m.dom().contains(""@) && m[""@] is Object,
            forall|k: Seq<char>|
                #[trigger] texts(names@).contains(k) <==> m.dom().contains("/"@ + escaped(k)),
            forall|k: int| 0 <= k < i ==> ends_by(m, (#[trigger] names@[k])@, len as nat),
        decreases names.len() - i,
    {
        let start = cat2("/", escape(names[i].as_str()).as_str());
        let ghost name = names@[i as int]@;
        proof {
            assert(texts(names@)[i as int] == name);
            assert(texts(names@).contains(name));
        }
        let fits = match node_at(document, start.as_str()) {
            Some(Node::Object) => ends_within(document, start.as_str(), "/data_offsets/1", len),
            Some(Node::Array(_)) => ends_within(document, start.as_str(), "/2/1", len),
            _ => true,
        };
        assert(fits == ends_by(m, name, len as nat));
        if !fits {
            assert(m.dom().contains("/"@ + escaped(name)));
            return false;
        }
        i = i + 1;
    }
    proof {
        assert forall|tensor: Seq<char>|
            m.dom().contains("/"@ + #[trigger] escaped(tensor)) implies ends_by(
            m,
            tensor,
            len as nat,
        ) by {
            assert(texts(names@).contains(tensor));
            let k = choose|k: int| 0 <= k < texts(names@).len() && texts(names@)[k] == tensor;
            assert(names@[k]@ == tensor);
        }
    }
    true
}

/// Tests whether no tensor of a safetensors file ends behind the file.
fn file_within(bytes: &[u8]) -> (r: bool)
    ensures
        r == within(bytes@),
{
    let n = bytes.len();
    assert(bytes@.len() == n);
    if n < 8 {
        return true;
    }
    let size = read64(bytes, 0);
    if size > (n - 8) as u64 {
        return true;
    }
    let stop = 8 + size as usize;
    let text = match text_of_utf8(&bytes[8..stop]) {
        Ok(t) => t,
        Err(_) => return true,
    };
    match parse_json(text.as_str()) {
        Ok(document) => header_bounded(&document, n),
        Err(_) => true,
    }
}

/// Calls `safetensors::SafeTensors::deserialize`. Whether the bytes are accepted and what the file
/// then holds are functions of the bytes. The words of a refusal are left open: where several
/// tensors overlap, the one that they name depends on the order of a hash map. A file in which a
/// tensor ends behind the file is left out: adding up the sizes of its parts may overflow.
#[verifier::external_body]
fn deserialize_archive(bytes: &[u8]) -> (r: std::result::Result<
    safetensors::SafeTensors<'_>,
    String,
>)
    requires
        within(bytes@),
    ensures
        match r {
            Ok(st) => archive(bytes@) == Some(archive_contents(st)),
            Err(_) => archive(bytes@) is None,
        },
{
    safetensors::SafeTensors::deserialize(bytes).map_err(|e| e.to_string())
}

/// Opens a safetensors file.
fn open_archive(bytes: &[u8]) -> (r: std::result::Result<safetensors::SafeTensors<'_>, String>)
    ensures
        match r {
            Ok(st) => opened(bytes@) == Some(archive_contents(st)),
            Err(_) => opened(bytes@) is None,
        },
{
    if file_within(bytes) {
        deserialize_archive(bytes)
    } else {
        Err("incomplete metadata, file not fully covered".to_owned())
    }
}

/// Calls `safetensors::SafeTensors::names`: the name of each tensor of the file, once, in no
/// particular order.
#[verifier::external_body]
fn archive_names(st: &safetensors::SafeTensors<'_>) -> (r: Vec<String>)
    ensures
        texts(r@).no_duplicates(),
        forall|name: Seq<char>|
            #[trigger] texts(r@).contains(name) <==> archive_contents(*st).dom().contains(name),
{
    st.names().into_iter().map(|n| n.to_string()).collect()
}

/// Calls `safetensors::SafeTensors::tensor` and copies out the data, the name of the element type
/// and the shape. A name that the file does not hold is refused in words that quote it. The file's
/// header has been checked, so that the data take the bits of as many elements as the shape has.
#[verifier::external_body]
fn archive_tensor(st: &safetensors::SafeTensors<'_>, name: &str) -> (r: std::result::Result<
    (Vec<u8>, String, Vec<usize>),
    String,
>)
    ensures
        match r {
            Ok(t) => archive_contents(*st).dom().contains(name@) && archive_contents(*st)[name@]
                == (ArchiveEntry { data: t.0@, dtype: t.1@, shape: t.2@ }) && (dtype_named(t.1@)
                is Some ==> t.0@.len() == numel(t.2@) * dtype_named(t.1@)->Some_0.bytes()),
            Err(words) => !archive_contents(*st).dom().contains(name@) && words@ == "tensor `"@
                + name@ + "` not found"@,
        },
{
    match st.tensor(name) {
        Ok(v) => Ok((v.data().to_vec(), format!("{:?}", v.dtype()), v.shape().to_vec())),
        Err(e) => Err(e.to_string()),
    }
}

/// A refused `model.safetensors.index.json`, in these words.
pub open spec fn index_refused(words: Seq<char>) -> ErrorView {
    ErrorView::Load("parsing index.json: "@ + words)
}

fn refuse_index(words: &str) -> (r: EyebrowseError)
    ensures
        r@ == index_refused(words@),
{
    EyebrowseError::Load(cat2("parsing index.json: ", words))
}

/// Where a document has its map of shards: an object under a name, a list as its only item.
pub open spec fn map_pointer(m: Map<Seq<char>, NodeView>) -> Seq<char> {
    if array_at(m, ""@) is Some {
        "/0"@
    } else {
        "/weight_map"@
    }
}

/// Where a document has the shard of a tensor.
pub open spec fn shard_pointer(m: Map<Seq<char>, NodeView>, tensor: Seq<char>) -> Seq<char> {
    map_pointer(m) + "/"@ + escaped(tensor)
}

/// For what a document is refused as an index of shards: an index is an object with a member
/// `weight_map`, or a list of it alone, an object that maps the name of each tensor to the name of
/// a file.
pub open spec fn index_fault(m: Map<Seq<char>, NodeView>) -> Option<ErrorView> {
    if array_at(m, ""@) == Some(0usize) {
        Some(index_refused("invalid length 0, expected struct IndexFile with 1 element"@))
    } else if !m.dom().contains(map_pointer(m)) {
        Some(index_refused("missing field `weight_map`"@))
    } else if !(m[map_pointer(m)] is Object) || exists|tensor: Seq<char>|
        m.dom().contains(#[trigger] shard_pointer(m, tensor)) && text_at(
            m,
            shard_pointer(m, tensor),
        ) is None {
        Some(index_refused("invalid field weight_map"@))
    } else if array_at(m, ""@) matches Some(n) && n > 1 {
        Some(index_refused("trailing characters"@))
    } else {
        None
    }
}

/// The names of a table's entries.
pub open spec fn keys<V>(table: Seq<(String, V)>) -> Seq<Seq<char>> {
    table.map_values(|e: (String, V)| e.0@)
}

/// A table of texts, as sequences of characters.
pub open spec fn text_table(table: Seq<(String, String)>) -> Seq<(Seq<char>, Seq<char>)> {
    table.map_values(|e: (String, String)| (e.0@, e.1@))
}

/// Whether a table has the shard of every tensor of an index, each once.
pub open spec fn lists_shards(
    table: Seq<(Seq<char>, Seq<char>)>,
    m: Map<Seq<char>, NodeView>,
) -> bool {
    &&& forall|tensor: Seq<char>|
        m.dom().contains(#[trigger] shard_pointer(m, tensor)) ==> exists|i: int|
            0 <= i < table.len() && (#[trigger] table[i]).0 == tensor
    &&& forall|i: int|
        0 <= i < table.len() ==> text_at(m, shard_pointer(m, (#[trigger] table[i]).0)) == Some(
            table[i].1,
        )
    &&& forall|i: int, j: int|
        0 <= i < j < table.len() ==> (#[trigger] table[i]).0 != (#[trigger] table[j]).0
}

/// Parses a `model.safetensors.index.json` into the shard file of each tensor.
pub fn index_from_json(s: &str) -> (r: Result<Vec<(String, String)>>)
    ensures
        match parsed_json(s@) {
            Err(words) => r is Err && r->Err_0@ == index_refused(words),
            Ok(m) => match index_fault(m) {
                Some(e) => r is Err && r->Err_0@ == e,
                None => r is Ok && lists_shards(text_table(r->Ok_0@), m),
            },
        },
{
    let document = match parse_json(s) {
        Ok(v) => v,
        Err(words) => return Err(refuse_index(words.as_str())),
    };
    let ghost m = json_contents(document);
    let length = read_array(&document, "");
    let base = match length {
        Some(n) => {
            if n == 0 {
                return Err(
                    refuse_index("invalid length 0, expected struct IndexFile with 1 element"),
                );
            }
            "/0"
        },
        None => "/weight_map",
    };
    if node_at(&document, base).is_none() {
        return Err(refuse_index("missing field `weight_map`"));
    }
    let names = match keys_at(&document, base) {
        Some(k) => k,
        None => return Err(refuse_index("invalid field weight_map")),
    };
    let mut table: Vec<(String, String)> = Vec::new();
    let mut i: usize = 0;
    while i < names.len()
        invariant
            i <= names@.len(),
            m == json_contents(document),
            parsed_json(s@) == Ok::<Map<Seq<char>, NodeView>, Seq<char>>(m),
            m.dom().contains(map_pointer(m)),
            base@ == map_pointer(m),
            array_at(m, ""@) == length,
            length != Some(0usize),
            forall|k: Seq<char>|
                #[trigger] texts(names@).contains(k) ==> m.dom().contains(
                    map_pointer(m) + "/"@ + escaped(k),
                ),
            table@.len() == i,
            forall|k: int|
                0 <= k < i ==> (#[trigger] table@[k]).0@ == names@[k]@ && text_at(
                    m,
                    shard_pointer(m, table@[k].0@),
                ) == Some(table@[k].1@),
        decreases names.len() - i,
    {
        let at = cat3(base, "/", escape(names[i].as_str()).as_str());
        assert(at@ == shard_pointer(m, names@[i as int]@));
        match read_text(&document, at.as_str()) {
            Some(shard) => {
                table.push((names[i].clone(), shard));
            },
            None => {
                proof {
                    let k = names@[i as int]@;
                    assert(texts(names@)[i as int] == k);
                    assert(texts(names@).contains(k));
                    assert(m.dom().contains(shard_pointer(m, k)));
                }
                return Err(refuse_index("invalid field weight_map"));
            },
        }
        i = i + 1;
    }
    proof {
        let t = text_table(table@);
        assert forall|tensor: Seq<char>| m.dom().contains(#[trigger] shard_pointer(m, tensor)) implies
            exists|i: int| 0 <= i < t.len() && (#[trigger] t[i]).0 == tensor by {
            assert(texts(names@).contains(tensor));
            let j = choose|j: int| 0 <= j < texts(names@).len() && texts(names@)[j] == tensor;
            assert(t[j].0 == tensor);
        }
        assert forall|i: int, j: int| 0 <= i < j < t.len() implies (#[trigger] t[i]).0
            != (#[trigger] t[j]).0 by {
            assert(texts(names@)[i] == t[i].0 && texts(names@)[j] == t[j].0);
        }
        assert forall|i: int| 0 <= i < t.len() implies text_at(
            m,
            shard_pointer(m, (#[trigger] t[i]).0),
        ) == Some(t[i].1) by {
            assert(table@[i].0@ == t[i].0);
        }
        assert(index_fault(m) is None || (length matches Some(n) && n > 1)) by {
            if exists|tensor: Seq<char>|
                m.dom().contains(#[trigger] shard_pointer(m, tensor)) && text_at(
                    m,
                    shard_pointer(m, tensor),
                ) is None {
                let tensor = choose|tensor: Seq<char>|
                    m.dom().contains(#[trigger] shard_pointer(m, tensor)) && text_at(
                        m,
                        shard_pointer(m, tensor),
                    ) is None;
                let i = choose|i: int| 0 <= i < t.len() && (#[trigger] t[i]).0 == tensor;
                assert(text_at(m, shard_pointer(m, t[i].0)) == Some(t[i].1));
            }
        }
    }
    if let Some(n) = length {
        if n > 1 {
            return Err(refuse_index("trailing characters"));
        }
    }
    Ok(table)
}

/// The shards of a table, each once, in the order of their first use.
pub open spec fn shards_of(table: Seq<(Seq<char>, Seq<char>)>) -> Seq<Seq<char>>
    decreases table.len(),
{
    if table.len() == 0 {
        seq![]
    } else {
        let earlier = shards_of(table.drop_last());
        if earlier.contains(table.last().1) {
            earlier
        } else {
            earlier.push(table.last().1)
        }
    }
}

/// Tells whether a name is among others.
pub(crate) fn has_name(names: &Vec<String>, name: &str) -> (r: bool)
    ensures
        r == texts(names@).contains(name@),
{
    let mut i: usize = 0;
    while i < names.len()
        invariant
            i <= names@.len(),
            forall|k: int| 0 <= k < i ==> (#[trigger] names@[k])@ != name@,
        decreases names.len() - i,
    {
        if same(names[i].as_str(), name) {
            assert(texts(names@)[i as int] == name@);
            return true;
        }
        i = i + 1;
    }
    proof {
        if texts(names@).contains(name@) {
            let k = choose|k: int| 0 <= k < texts(names@).len() && texts(names@)[k] == name@;
            assert(names@[k]@ == name@);
        }
    }
    false
}

/// Lists the shard files of an index, each once, in the order in which they are first used.
pub fn shard_files(weight_map: &Vec<(String, String)>) -> (r: Vec<String>)
    ensures
        texts(r@) == shards_of(text_table(weight_map@)),
{
    let ghost table = text_table(weight_map@);
    let mut files: Vec<String> = Vec::new();
    assert(texts(files@) =~= seq![]);
    let mut i: usize = 0;
    while i < weight_map.len()
        invariant
            i <= weight_map@.len(),
            table == text_table(weight_map@),
            texts(files@) == shards_of(table.take(i as int)),
        decreases weight_map.len() - i,
    {
        assert(table.take(i + 1).drop_last() =~= table.take(i as int));
        if !has_name(&files, weight_map[i].1.as_str()) {
            let ghost before = texts(files@);
            files.push(weight_map[i].1.clone());
            assert(texts(files@) =~= before.push(table[i as int].1));
        }
        i = i + 1;
    }
    assert(table.take(i as int) =~= table);
    files
}

/// A law of shard lists: every shard that a table names is listed, and none is listed twice.
pub proof fn lemma_shards_of(table: Seq<(Seq<char>, Seq<char>)>)
    ensures
        shards_of(table).no_duplicates(),
        forall|i: int|
            0 <= i < table.len() ==> shards_of(table).contains((#[trigger] table[i]).1),
        forall|f: Seq<char>| #[trigger]
            shards_of(table).contains(f) ==> exists|i: int|
                0 <= i < table.len() && (#[trigger] table[i]).1 == f,
    decreases table.len(),
{
    if table.len() > 0 {
        let d = table.drop_last();
        lemma_shards_of(d);
        let earlier = shards_of(d);
        let all = shards_of(table);
        assert(all.contains(table.last().1)) by {
            if !earlier.contains(table.last().1) {
                assert(all[all.len() - 1] == table.last().1);
            }
        }
        assert forall|i: int| 0 <= i < table.len() implies all.contains((#[trigger] table[i]).1) by {
            if i < d.len() {
                assert(earlier.contains(d[i].1));
                let k = choose|k: int| 0 <= k < earlier.len() && earlier[k] == d[i].1;
                assert(all[k] == earlier[k]);
            }
        }
        assert forall|f: Seq<char>| #[trigger] all.contains(f) implies exists|i: int|
            0 <= i < table.len() && (#[trigger] table[i]).1 == f by {
            let k = choose|k: int| 0 <= k < all.len() && all[k] == f;
            if k < earlier.len() {
                assert(earlier.contains(f));
                let i = choose|i: int| 0 <= i < d.len() && (#[trigger] d[i]).1 == f;
                assert(table[i].1 == f);
            } else {
                assert(table[table.len() - 1].1 == f);
            }
        }
    }
}

/// How a model directory holds its weights: in one file, or in the files that an index names.
#[derive(Clone, Copy, Debug, PartialEq, Eq, Structural)]
pub enum Layout {
    Sharded,
    Single,
}

/// Tells how a model directory holds its weights from the files that are there; an index counts
/// before a single file.
pub fn choose_layout(has_index: bool, has_single: bool, dir: &str) -> (r: Result<Layout>)
    ensures
        match r {
            Ok(Layout::Sharded) => has_index,
            Ok(Layout::Single) => !has_index && has_single,
            Err(e) => !has_index && !has_single && e@ == ErrorView::Load(
                "no model.safetensors or model.safetensors.index.json in "@ + dir@,
            ),
        },
{
    if has_index {
        Ok(Layout::Sharded)
    } else if has_single {
        Ok(Layout::Single)
    } else {
        Err(
            EyebrowseError::Load(
                cat2("no model.safetensors or model.safetensors.index.json in ", dir),
            ),
        )
    }
}

/// A [`WeightSource`] backed by the contents of one or more `.safetensors` files.
pub struct SafeTensorsSource {
    config: Config,
    /// Shard file name and full file contents.
    shards: Vec<(String, Vec<u8>)>,
    /// Tensor name and the shard file name holding it.
    locations: Vec<(String, String)>,
}

/// What a [`SafeTensorsSource`] holds.
pub struct SafeTensorsView {
    pub config: ConfigView,
    pub shards: Seq<(Seq<char>, Seq<u8>)>,
    pub locations: Seq<(Seq<char>, Seq<char>)>,
}

/// A table of files, as sequences.
pub open spec fn file_table(table: Seq<(String, Vec<u8>)>) -> Seq<(Seq<char>, Seq<u8>)> {
    table.map_values(|e: (String, Vec<u8>)| (e.0@, e.1@))
}

impl View for SafeTensorsSource {
    type V = SafeTensorsView;

    closed spec fn view(&self) -> SafeTensorsView {
        SafeTensorsView {
            config: self.config@,
            shards: file_table(self.shards@),
            locations: text_table(self.locations@),
        }
    }
}

/// A tensor as it stands in a file, where its element type is one that is read.
pub open spec fn readable(e: ArchiveEntry) -> Option<RawView> {
    match dtype_named(e.dtype) {
        Some(d) => Some(RawView { bytes: e.data, dtype: d, shape: e.shape }),
        None => None,
    }
}

impl SafeTensorsView {
    /// What the shard of this name holds, where there is such a shard and it is accepted.
    pub open spec fn shard(self, name: Seq<char>) -> Option<Map<Seq<char>, ArchiveEntry>> {
        match entry(self.shards, name) {
            Some(bytes) => opened(bytes),
            None => None,
        }
    }

    /// The tensor of this name.
    pub open spec fn tensor(self, name: Seq<char>) -> Option<RawView> {
        match entry(self.locations, name) {
            Some(shard) => match self.shard(shard) {
                Some(m) => if m.dom().contains(name) {
                    readable(m[name])
                } else {
                    None
                },
                None => None,
            },
            None => None,
        }
    }

    /// Whether the source is backed by one `model.safetensors`, whose tensors are all located in
    /// it, each once.
    pub open spec fn single(self, bytes: Seq<u8>, m: Map<Seq<char>, ArchiveEntry>) -> bool {
        &&& self.shards == seq![("model.safetensors"@, bytes)]
        &&& forall|i: int|
            0 <= i < self.locations.len() ==> (#[trigger] self.locations[i]).1
                == "model.safetensors"@ && m.dom().contains(self.locations[i].0)
        &&& forall|i: int, j: int|
            0 <= i < j < self.locations.len() ==> (#[trigger] self.locations[i]).0 != (
            #[trigger] self.locations[j]).0
        &&& forall|name: Seq<char>| #[trigger]
            m.dom().contains(name) ==> entry(self.locations, name) == Some("model.safetensors"@)
    }

    /// The names that the source lists, in order.
    pub open spec fn names(self) -> Seq<Seq<char>> {
        sorted(self.locations.map_values(|e: (Seq<char>, Seq<char>)| e.0))
    }

    /// Whether this is the error for a tensor that cannot be given: the source does not know the
    /// tensor, lacks its shard, cannot parse the shard, does not find the tensor in it or does not
    /// read its element type.
    pub open spec fn refusal(self, name: Seq<char>, e: ErrorView) -> bool {
        match entry(self.locations, name) {
            None => e == ErrorView::Load("unknown tensor "@ + name),
            Some(shard) => match entry(self.shards, shard) {
                None => e == ErrorView::Load("missing shard "@ + shard),
                Some(bytes) => match opened(bytes) {
                    None => exists|words: Seq<char>|
                        e == #[trigger] parse_failure(shard, words),
                    Some(m) => if !m.dom().contains(name) {
                        e == ErrorView::Load(
                            "tensor "@ + name + ": "@ + ("tensor `"@ + name + "` not found"@),
                        )
                    } else {
                        dtype_named(m[name].dtype) is None && e == ErrorView::UnsupportedConfig(
                            "safetensors dtype "@ + m[name].dtype,
                        )
                    },
                },
            },
        }
    }
}

/// The error for a file that cannot be parsed, in these words.
pub open spec fn parse_failure(file: Seq<char>, words: Seq<char>) -> ErrorView {
    ErrorView::Load("parsing "@ + file + ": "@ + words)
}

fn parse_error(file: &str, words: &str) -> (r: EyebrowseError)
    ensures
        r@ == parse_failure(file@, words@),
{
    let mut text = cat3("parsing ", file, ": ");
    text.append(words);
    EyebrowseError::Load(text)
}

impl SafeTensorsSource {
    /// A source backed by the contents of one `model.safetensors`.
    pub fn from_bytes(config: Config, bytes: Vec<u8>) -> (r: Result<Self>)
        ensures
            match opened(bytes@) {
                None => r is Err && exists|words: Seq<char>|
                    r->Err_0@ == #[trigger] parse_failure("model.safetensors"@, words),
                Some(m) => r is Ok && r->Ok_0@.config == config@ && r->Ok_0@.single(bytes@, m),
            },
    {
        let names = match open_archive(bytes.as_slice()) {
            Ok(st) => archive_names(&st),
            Err(words) => return Err(parse_error("model.safetensors", words.as_str())),
        };
        let ghost m = opened(bytes@)->Some_0;
        let mut locations: Vec<(String, String)> = Vec::new();
        let mut i: usize = 0;
        while i < names.len()
            invariant
                i <= names@.len(),
                locations@.len() == i,
                forall|k: int|
                    0 <= k < i ==> (#[trigger] locations@[k]).0@ == names@[k]@ && locations@[k].1@
                        == "model.safetensors"@,
            decreases names.len() - i,
        {
            locations.push((names[i].clone(), "model.safetensors".to_owned()));
            i = i + 1;
        }
        let mut shards: Vec<(String, Vec<u8>)> = Vec::new();
        let ghost content = bytes@;
        shards.push(("model.safetensors".to_owned(), bytes));
        let source = SafeTensorsSource { config, shards, locations };
        proof {
            let v = source@;
            let all = texts(names@);
            assert(v.shards =~= seq![("model.safetensors"@, content)]);
            assert forall|i: int| 0 <= i < v.locations.len() implies (#[trigger] v.locations[i]).1
                == "model.safetensors"@ && m.dom().contains(v.locations[i].0) by {
                assert(locations@[i].0@ == names@[i]@);
                assert(all[i] == v.locations[i].0);
                assert(all.contains(all[i]));
            }
            assert forall|i: int, j: int| 0 <= i < j < v.locations.len() implies (
            #[trigger] v.locations[i]).0 != (#[trigger] v.locations[j]).0 by {
                assert(locations@[i].0@ == names@[i]@ && locations@[j].0@ == names@[j]@);
                assert(all[i] != all[j]);
            }
            assert forall|name: Seq<char>| #[trigger] m.dom().contains(name) implies entry(
                v.locations,
                name,
            ) == Some("model.safetensors"@) by {
                assert(all.contains(name));
                let k = choose|k: int| 0 <= k < all.len() && all[k] == name;
                assert(locations@[k].0@ == names@[k]@);
                lemma_entry(v.locations, name, k);
            }
        }
        Ok(source)
    }

    /// A source backed by the shards of an index.
    pub fn from_shards(
        config: Config,
        weight_map: Vec<(String, String)>,
        shards: Vec<(String, Vec<u8>)>,
    ) -> (r: Self)
        requires
            forall|i: int, j: int|
                0 <= i < j < weight_map@.len() ==> (#[trigger] weight_map@[i]).0@ != (
                #[trigger] weight_map@[j]).0@,
        ensures
            r@ == (SafeTensorsView {
                config: config@,
                shards: file_table(shards@),
                locations: text_table(weight_map@),
            }),
    {
        SafeTensorsSource { config, shards, locations: weight_map }
    }
}

impl WeightSource for SafeTensorsSource {
    open spec fn spec_config(&self) -> ConfigView {
        self@.config
    }

    open spec fn spec_names(&self) -> Seq<Seq<char>> {
        self@.names()
    }

    open spec fn spec_raw(&self, name: Seq<char>) -> Option<RawView> {
        self@.tensor(name)
    }

    open spec fn spec_refusal(&self, name: Seq<char>, e: ErrorView) -> bool {
        self@.refusal(name, e)
    }

    fn config(&self) -> (r: &Config) {
        &self.config
    }

    fn tensor_names(&self) -> (r: Vec<String>) {
        let mut names: Vec<String> = Vec::new();
        let mut i: usize = 0;
        while i < self.locations.len()
            invariant
                i <= self.locations@.len(),
                names@.len() == i,
                forall|k: int| 0 <= k < i ==> (#[trigger] names@[k])@ == self.locations@[k].0@,
            decreases self.locations.len() - i,
        {
            names.push(self.locations[i].0.clone());
            i = i + 1;
        }
        assert(texts(names@) =~= self@.locations.map_values(|e: (Seq<char>, Seq<char>)| e.0));
        sort_names(names)
    }

    fn raw(&self, name: &str) -> (r: Result<RawTensor>) {
        let ghost v = self@;
        let at = match position(&self.locations, name) {
            Some(i) => i,
            None => {
                proof {
                    lemma_entry(v.locations, name@, -1);
                }
                return Err(EyebrowseError::Load(cat2("unknown tensor ", name)));
            },
        };
        proof {
            lemma_entry(v.locations, name@, at as int);
        }
        let shard = self.locations[at].1.as_str();
        let file = match position(&self.shards, shard) {
            Some(i) => i,
            None => {
                proof {
                    lemma_entry(v.shards, shard@, -1);
                }
                return Err(EyebrowseError::Load(cat2("missing shard ", shard)));
            },
        };
        proof {
            lemma_entry(v.shards, shard@, file as int);
        }
        let st = match open_archive(self.shards[file].1.as_slice()) {
            Ok(st) => st,
            Err(words) => return Err(parse_error(shard, words.as_str())),
        };
        let (bytes, dtype, shape) = match archive_tensor(&st, name) {
            Ok(t) => t,
            Err(words) => {
                let mut text = cat3("tensor ", name, ": ");
                text.append(words.as_str());
                return Err(EyebrowseError::Load(text));
            },
        };
        let dtype = match map_dtype(dtype.as_str()) {
            Ok(d) => d,
            Err(e) => return Err(e),
        };
        Ok(RawTensor { bytes, dtype, shape })
    }
}

/// A source lists the names of the tensors that it can locate, in order, and no others.
pub proof fn lemma_located(v: SafeTensorsView, name: Seq<char>)
    ensures
        is_sorted(v.names()),
        v.names().contains(name) <==> entry(v.locations, name) is Some,
{
    let all = v.locations.map_values(|e: (Seq<char>, Seq<char>)| e.0);
    lemma_sorted(all);
    lemma_same_members(v.names(), all, name);
    if all.contains(name) {
        let i = choose|i: int| 0 <= i < all.len() && all[i] == name;
        lemma_last_of(v.locations, name, i);
    } else {
        assert forall|j: int| 0 <= j < v.locations.len() implies (#[trigger] v.locations[j]).0
            != name by {
            assert(all[j] == v.locations[j].0);
        }
        lemma_entry(v.locations, name, -1);
    }
}

/// A table with an entry of a name has a last one.
proof fn lemma_last_of(table: Seq<(Seq<char>, Seq<char>)>, name: Seq<char>, i: int)
    requires
        0 <= i < table.len(),
        table[i].0 == name,
    ensures
        entry(table, name) is Some,
    decreases table.len(),
{
    if table.last().0 != name {
        lemma_last_of(table.drop_last(), name, i);
    }
}

/// A source backed by one file lists the names of the file's tensors, in order, and gives each
/// tensor as it stands in the file; it knows no others.
pub proof fn lemma_single_file(
    v: SafeTensorsView,
    bytes: Seq<u8>,
    m: Map<Seq<char>, ArchiveEntry>,
    name: Seq<char>,
)
    requires
        opened(bytes) == Some(m),
        v.single(bytes, m),
    ensures
        is_sorted(v.names()),
        v.names().contains(name) <==> m.dom().contains(name),
        m.dom().contains(name) ==> v.tensor(name) == readable(m[name]),
        !m.dom().contains(name) ==> v.tensor(name) is None && v.refusal(
            name,
            ErrorView::Load("unknown tensor "@ + name),
        ),
{
    lemma_located(v, name);
    lemma_entry(v.shards, "model.safetensors"@, 0);
    if !m.dom().contains(name) {
        lemma_entry(v.locations, name, -1);
    }
}

/// The names of the element types that are read, and how many bytes an element of each takes.
pub proof fn lemma_dtypes(name: Seq<char>)
    ensures
        dtype_named("F32"@) == Some(RawDType::F32) && RawDType::F32.bytes() == 4,
        dtype_named("F16"@) == Some(RawDType::F16) && RawDType::F16.bytes() == 2,
        dtype_named("BF16"@) == Some(RawDType::BF16) && RawDType::BF16.bytes() == 2,
        dtype_named("U8"@) == Some(RawDType::U8) && RawDType::U8.bytes() == 1,
        dtype_named("I8"@) == Some(RawDType::I8) && RawDType::I8.bytes() == 1,
        dtype_named("I32"@) == Some(RawDType::I32) && RawDType::I32.bytes() == 4,
        dtype_named("I64"@) == Some(RawDType::I64) && RawDType::I64.bytes() == 8,
        dtype_named(name) is Some ==> name == "F32"@ || name == "F16"@ || name == "BF16"@ || name
            == "U8"@ || name == "I8"@ || name == "I32"@ || name == "I64"@,
{
    reveal_strlit("F32");
    reveal_strlit("F16");
    reveal_strlit("BF16");
    reveal_strlit("U8");
    reveal_strlit("I8");
    reveal_strlit("I32");
    reveal_strlit("I64");
    assert("F32"@[1] == '3' && "F16"@[1] == '1' && "BF16"@[1] == 'F');
    assert("U8"@[0] == 'U' && "I8"@[0] == 'I');
    assert("I32"@[0] == 'I' && "I64"@[0] == 'I' && "F32"@[0] == 'F' && "F16"@[0] == 'F');
    assert("I32"@[1] == '3' && "I64"@[1] == '6' && "I8"@[1] == '8' && "U8"@[1] == '8');
}

/// A tensor of a sharded model is read from the file that the index names for it, and from no
/// other, however many files hold a tensor of its name.
pub proof fn lemma_sharded(
    v: SafeTensorsView,
    name: Seq<char>,
    file: Seq<char>,
    bytes: Seq<u8>,
    m: Map<Seq<char>, ArchiveEntry>,
    i: int,
    j: int,
)
    requires
        0 <= i < v.locations.len(),
        v.locations[i] == (name, file),
        forall|k: int| i < k < v.locations.len() ==> (#[trigger] v.locations[k]).0 != name,
        0 <= j < v.shards.len(),
        v.shards[j] == (file, bytes),
        forall|k: int| j < k < v.shards.len() ==> (#[trigger] v.shards[k]).0 != file,
        opened(bytes) == Some(m),
    ensures
        v.tensor(name) is Some <==> m.dom().contains(name) && dtype_named(m[name].dtype) is Some,
        v.tensor(name) is Some ==> v.tensor(name)->Some_0.bytes == m[name].data && v.tensor(
            name,
        )->Some_0.shape == m[name].shape && Some(v.tensor(name)->Some_0.dtype) == dtype_named(
            m[name].dtype,
        ),
{
    lemma_entry(v.locations, name, i);
    lemma_entry(v.shards, file, j);
}

/// A file with a tensor that would end behind the file is refused.
pub proof fn lemma_beyond_refused(
    bytes: Seq<u8>,
    text: Seq<char>,
    m: Map<Seq<char>, NodeView>,
    tensor: Seq<char>,
    end: u64,
)
    requires
        header(bytes) == Some(text),
        parsed_json(text) == Ok::<Map<Seq<char>, NodeView>, Seq<char>>(m),
        m.dom().contains(""@),
        m[""@] is Object,
        m.dom().contains("/"@ + escaped(tensor)),
        m["/"@ + escaped(tensor)] is Object,
        unsigned_at(m, "/"@ + escaped(tensor) + "/data_offsets/1"@) == Some(end),
        end > bytes.len(),
    ensures
        opened(bytes) is None,
{
    assert(!ends_by(m, tensor, bytes.len()));
}

/// An index gives each tensor the file that it names under the tensor's name, and knows no others.
pub proof fn lemma_index_entries(
    table: Seq<(Seq<char>, Seq<char>)>,
    m: Map<Seq<char>, NodeView>,
    tensor: Seq<char>,
)
    requires
        m.dom().contains(""@),
        m[""@] is Object,
        lists_shards(table, m),
    ensures
        m.dom().contains("/weight_map"@ + "/"@ + escaped(tensor)) ==> entry(table, tensor) is Some
            && m["/weight_map"@ + "/"@ + escaped(tensor)] == NodeView::Text(
            entry(table, tensor)->Some_0,
        ),
        !m.dom().contains("/weight_map"@ + "/"@ + escaped(tensor)) ==> entry(table, tensor) is None,
{
    let at = shard_pointer(m, tensor);
    assert(at == "/weight_map"@ + "/"@ + escaped(tensor));
    if m.dom().contains(at) {
        let i = choose|i: int| 0 <= i < table.len() && (#[trigger] table[i]).0 == tensor;
        assert forall|j: int| i < j < table.len() implies (#[trigger] table[j]).0 != tensor by {
            assert(table[i].0 != table[j].0);
        }
        lemma_entry(table, tensor, i);
    } else {
        assert forall|j: int| 0 <= j < table.len() implies (#[trigger] table[j]).0 != tensor by {
            assert(text_at(m, shard_pointer(m, table[j].0)) == Some(table[j].1));
        }
        lemma_entry(table, tensor, -1);
    }
}

} // verus!
