//! Thin wrappers over the `tokenizers` crate.
//!
//! The crate panics on some settings: on chunks of no characters, on windows that overlap by their
//! whole length, on cuts that cross. So the settings of a tokenizer are read first, and a tokenizer
//! that could panic is refused.

use vstd::prelude::*;
use vstd::string::*;

use crate::error::{seen, ErrorView, EyebrowseError, Result};
use crate::json::{
    array_at, bool_at, found, json_contents, node_at, read_array, read_bool, read_text,
    read_unsigned, text_at, unsigned_at, Node, NodeView,
};
use crate::text::{cat2, cat3, dec, decimal, same};

verus! {

/// `tokenizers::Tokenizer`, a loaded tokenizer.
#[verifier::external_type_specification]
#[verifier::external_body]
pub struct ExTokenizer(tokenizers::Tokenizer);

/// What `serde_json::to_value` makes of the parts of a tokenizer: what the document of its settings
/// holds, or why there is none.
pub uninterp spec fn settings(tok: tokenizers::Tokenizer) -> std::result::Result<
    Map<Seq<char>, NodeView>,
    Seq<char>,
>;

/// Calls `serde_json::to_value` on the parts of a tokenizer, in lists: at `/0` how it truncates and
/// pads, at `/1` its added tokens, at `/2` its normalizer and pre-tokenizer, at `/3` its
/// post-processor and decoder, at `/4` the kind of its model and whether it has a chance to drop
/// merges or to sample, at `/5` its pre-tokenizer as `Debug` shows it, with the expressions that
/// are in use. Trusted: the document is a function of the tokenizer. The vocabulary is left out: it
/// is large, and an id at the end of its range cannot be written.
#[verifier::external_body]
fn read_settings(tok: &tokenizers::Tokenizer) -> (r: std::result::Result<serde_json::Value, String>)
    ensures
        settings(*tok) == match r {
            Ok(v) => Ok::<Map<Seq<char>, NodeView>, Seq<char>>(json_contents(v)),
            Err(words) => Err(words@),
        },
{
    let model = match tok.get_model() {
        tokenizers::ModelWrapper::BPE(m) => ("BPE", m.dropout.is_some()),
        tokenizers::ModelWrapper::WordPiece(_) => ("WordPiece", false),
        tokenizers::ModelWrapper::WordLevel(_) => ("WordLevel", false),
        tokenizers::ModelWrapper::Unigram(m) => ("Unigram", m.alpha.is_some()),
    };
    let added = tok.get_added_vocabulary();
    let sizes = (tok.get_truncation(), tok.get_padding());
    let before = (tok.get_normalizer(), tok.get_pre_tokenizer());
    let after = (tok.get_post_processor(), tok.get_decoder());
    let shown = format!("{:?}", tok.get_pre_tokenizer());
    serde_json::to_value((sizes, added, before, after, model, shown)).map_err(|e| e.to_string())
}

/// The steps of a tokenizer that are made of components.
#[derive(Clone, Copy, Debug, PartialEq, Eq, Structural)]
pub enum Stage {
    Normalizer,
    PreTokenizer,
    PostProcessor,
    Decoder,
}

/// How deep components may be nested.
pub const DEPTH: usize = 16;

/// The largest size that a text is padded to, and the largest that its length is made a multiple
/// of.
pub const MAX_PADDING: u64 = 0x100_0000;

impl Stage {
    /// What the list of the components of a sequence is called.
    pub open spec fn list(self) -> Seq<char> {
        match self {
            Stage::Normalizer => "/normalizers"@,
            Stage::PreTokenizer => "/pretokenizers"@,
            Stage::PostProcessor => "/processors"@,
            Stage::Decoder => "/decoders"@,
        }
    }

    /// Where the settings have the component.
    pub open spec fn place(self) -> Seq<char> {
        match self {
            Stage::Normalizer => "/2/0"@,
            Stage::PreTokenizer => "/2/1"@,
            Stage::PostProcessor => "/3/0"@,
            Stage::Decoder => "/3/1"@,
        }
    }

    /// Whether components of this kind work on every text, whatever their settings are. A
    /// precompiled character map may be damaged, and an original BPE decoder works on some token
    /// only, so neither is among them.
    pub open spec fn plain(self, kind: Seq<char>) -> bool {
        match self {
            Stage::Normalizer => {
                ||| kind == "BertNormalizer"@
                ||| kind == "Strip"@
                ||| kind == "StripAccents"@
                ||| kind == "NFC"@
                ||| kind == "NFD"@
                ||| kind == "NFKC"@
                ||| kind == "NFKD"@
                ||| kind == "Lowercase"@
                ||| kind == "Nmt"@
                ||| kind == "ByteLevel"@
            },
            Stage::PreTokenizer => {
                ||| kind == "BertPreTokenizer"@
                ||| kind == "ByteLevel"@
                ||| kind == "CharDelimiterSplit"@
                ||| kind == "Metaspace"@
                ||| kind == "Whitespace"@
                ||| kind == "WhitespaceSplit"@
                ||| kind == "Split"@
                ||| kind == "Punctuation"@
                ||| kind == "Digits"@
                ||| kind == "UnicodeScripts"@
            },
            Stage::PostProcessor => {
                ||| kind == "ByteLevel"@
                ||| kind == "BertProcessing"@
                ||| kind == "RobertaProcessing"@
            },
            Stage::Decoder => {
                ||| kind == "ByteLevel"@
                ||| kind == "WordPiece"@
                ||| kind == "Metaspace"@
                ||| kind == "CTC"@
                ||| kind == "Fuse"@
                ||| kind == "ByteFallback"@
            },
        }
    }

    /// Whether the component at `at`, of a kind that is no sequence, works on every text with the
    /// settings that it has.
    pub open spec fn works(
        self,
        m: Map<Seq<char>, NodeView>,
        at: Seq<char>,
        kind: Seq<char>,
        nested: bool,
    ) -> bool {
        ||| self.plain(kind)
        ||| match self {
            Stage::Normalizer => {
                ||| kind == "Prepend"@ && says_something(text_at(m, at + "/prepend"@))
                ||| kind == "Replace"@ && says_something(text_at(m, at + "/pattern/String"@))
                ||| kind == "Replace"@ && (text_at(m, at + "/pattern/Regex"@) matches Some(p)
                    && consumes(p))
            },
            Stage::PreTokenizer => kind == "FixedLength"@ && (unsigned_at(
                m,
                at + "/length"@,
            ) matches Some(n) && n > 0),
            Stage::PostProcessor => kind == "TemplateProcessing"@ && fills_in(m, at, nested),
            Stage::Decoder => {
                ||| kind == "Strip"@ && unsigned_at(m, at + "/stop"@) == Some(0u64)
                ||| kind == "Replace"@ && matches_forward(m, at)
            },
        }
    }
}

/// Whether there is a text that is not empty.
pub open spec fn says_something(s: Option<Seq<char>>) -> bool {
    s matches Some(t) && t.len() > 0
}

/// Whether an expression resets where its match begins: a backslash, itself not escaped, stands
/// before a `K`.
pub open spec fn resets(pattern: Seq<char>) -> bool
    decreases pattern.len(),
{
    if pattern.len() < 2 {
        false
    } else if pattern[0] == '\\' {
        pattern[1] == 'K' || resets(pattern.skip(2))
    } else {
        resets(pattern.skip(1))
    }
}

/// Whether an expression that begins with this character begins with a character that a match
/// takes in.
pub open spec fn takes_in(c: char) -> bool {
    ||| 'a' <= c <= 'z'
    ||| 'A' <= c <= 'Z'
    ||| '0' <= c <= '9'
    ||| c == ' '
    ||| c == '.'
    ||| c == '['
    ||| c > '~'
}

/// Whether a backslash before this character stands for one of a class of characters.
pub open spec fn names_class(c: char) -> bool {
    c == 's' || c == 'S' || c == 'd' || c == 'D' || c == 'w' || c == 'W'
}

/// Whether this character of an expression makes nothing before it optional and opens no
/// alternative, group or look-around.
pub open spec fn binding(p: Seq<char>, i: int) -> bool {
    &&& p[i] != '*'
    &&& p[i] != '?'
    &&& p[i] != '|'
    &&& p[i] != '('
    &&& p[i] == '{' ==> i + 1 < p.len() && '1' <= p[i + 1] <= '9'
}

/// Whether every match of an expression takes in a character, as its form shows: it begins with
/// something that takes one in, nothing in it is optional, and it does not reset where its match
/// begins.
pub open spec fn consumes(p: Seq<char>) -> bool {
    &&& p.len() > 0
    &&& takes_in(p[0]) || (p.len() > 1 && p[0] == '\\' && names_class(p[1]))
    &&& forall|i: int| 0 <= i < p.len() ==> #[trigger] binding(p, i)
    &&& !resets(p)
}

/// Whether no expression that the pre-tokenizer splits by resets where its match begins. In what
/// shows the pre-tokenizer the expressions stand as they are, and all other texts have their
/// backslashes escaped.
pub open spec fn splits_forward(m: Map<Seq<char>, NodeView>) -> bool {
    text_at(m, "/5"@) matches Some(t) && !resets(t)
}

/// Whether no match of the pattern of the component at `at` ends before it begins: the pattern is a
/// plain text, or an expression that does not reset where its match begins.
pub open spec fn matches_forward(m: Map<Seq<char>, NodeView>, at: Seq<char>) -> bool {
    ||| text_at(m, at + "/pattern/String"@) is Some
    ||| text_at(m, at + "/pattern/Regex"@) matches Some(p) && !resets(p)
}

/// Item `i` of the list at `at`.
pub open spec fn item(at: Seq<char>, i: int) -> Seq<char> {
    at + "/"@ + dec(i as nat)
}

/// The sequence that piece `i` of the template at `at` stands for, where it stands for one.
pub open spec fn piece(m: Map<Seq<char>, NodeView>, at: Seq<char>, i: int) -> Option<Seq<char>> {
    text_at(m, item(at + "/single"@, i) + "/Sequence/id"@)
}

/// How many of the first `n` pieces of the template at `at` stand for a sequence.
pub open spec fn sequences(m: Map<Seq<char>, NodeView>, at: Seq<char>, n: nat) -> nat
    decreases n,
{
    if n == 0 {
        0
    } else {
        sequences(m, at, (n - 1) as nat) + if piece(m, at, n - 1) is Some {
            1nat
        } else {
            0nat
        }
    }
}

/// Whether the template at `at` for a single text asks for no second one; among other components it
/// hands on exactly one text.
pub open spec fn fills_in(m: Map<Seq<char>, NodeView>, at: Seq<char>, nested: bool) -> bool {
    match array_at(m, at + "/single"@) {
        Some(n) => {
            &&& forall|i: int| 0 <= i < n ==> #[trigger] piece(m, at, i) != Some("B"@)
            &&& nested ==> sequences(m, at, n as nat) == 1
        },
        None => false,
    }
}

/// Whether the component at `at`, and each that it is made of, works on every text; a step without
/// a component does.
pub open spec fn sound(
    stage: Stage,
    m: Map<Seq<char>, NodeView>,
    at: Seq<char>,
    nested: bool,
    depth: nat,
) -> bool
    decreases depth, 0nat, 0nat,
{
    match text_at(m, at + "/type"@) {
        None => found(m, at) is None,
        Some(kind) => if kind == "Sequence"@ {
            match array_at(m, at + stage.list()) {
                Some(n) => depth > 0 && all_sound(
                    stage,
                    m,
                    at + stage.list(),
                    n as nat,
                    (depth - 1) as nat,
                ),
                None => false,
            }
        } else {
            stage.works(m, at, kind, nested)
        },
    }
}

/// Whether the first `n` components of the list at `list` work on every text.
pub open spec fn all_sound(
    stage: Stage,
    m: Map<Seq<char>, NodeView>,
    list: Seq<char>,
    n: nat,
    depth: nat,
) -> bool
    decreases depth, 1nat, n,
{
    n == 0 || (all_sound(stage, m, list, (n - 1) as nat, depth) && sound(
        stage,
        m,
        item(list, n - 1),
        true,
        depth,
    ))
}

/// Whether windows of a text that is cut to a length overlap by less than that length.
pub open spec fn truncates(m: Map<Seq<char>, NodeView>) -> bool {
    ||| found(m, "/0/0"@) is None
    ||| match (unsigned_at(m, "/0/0/max_length"@), unsigned_at(m, "/0/0/stride"@)) {
        (Some(max), Some(stride)) => max == 0 || stride < max,
        _ => false,
    }
}

/// Whether no text is padded beyond bounds.
pub open spec fn pads(m: Map<Seq<char>, NodeView>) -> bool {
    ||| found(m, "/0/1"@) is None
    ||| {
        &&& unsigned_at(m, "/0/1/pad_to_multiple_of"@) matches Some(n) ==> n <= MAX_PADDING
        &&& {
            ||| text_at(m, "/0/1/strategy"@) == Some("BatchLongest"@)
            ||| unsigned_at(m, "/0/1/strategy/Fixed"@) matches Some(n) && n <= MAX_PADDING
        }
    }
}

/// Whether none of the added tokens takes in the spaces on the side that `flag` names.
pub open spec fn keeps_spaces(m: Map<Seq<char>, NodeView>, n: usize, flag: Seq<char>) -> bool {
    forall|i: int| 0 <= i < n ==> bool_at(m, #[trigger] item("/1"@, i) + flag) != Some(true)
}

/// Whether a text has a visible character of ASCII.
pub open spec fn visible(s: Seq<char>) -> bool {
    exists|i: int| 0 <= i < s.len() && '!' <= #[trigger] s[i] <= '~'
}

/// Whether added token `i` is searched for as it is written and is more than spaces, so that it
/// does not lie in the spaces that another token takes in.
pub open spec fn stands_out(m: Map<Seq<char>, NodeView>, i: int) -> bool {
    &&& bool_at(m, item("/1"@, i) + "/normalized"@) == Some(false)
    &&& text_at(m, item("/1"@, i) + "/content"@) matches Some(t) && visible(t)
}

/// Whether each added token that takes in the spaces before it stands out.
pub open spec fn strips_apart(m: Map<Seq<char>, NodeView>, n: usize) -> bool {
    forall|i: int|
        0 <= i < n && bool_at(m, #[trigger] item("/1"@, i) + "/lstrip"@) == Some(true)
            ==> stands_out(m, i)
}

/// Whether no added token that takes in the spaces before it can begin behind its end, where
/// another has taken those spaces in already.
pub open spec fn keeps_apart(m: Map<Seq<char>, NodeView>) -> bool {
    match array_at(m, "/1"@) {
        Some(n) => keeps_spaces(m, n, "/rstrip"@) || strips_apart(m, n),
        None => false,
    }
}

/// Whether the model draws from its vocabulary by chance, which a unigram model can do.
pub open spec fn samples(m: Map<Seq<char>, NodeView>) -> bool {
    text_at(m, "/4/0"@) == Some("Unigram"@) && bool_at(m, "/4/1"@) == Some(true)
}

/// Whether the model finds the tokens of a text anew and without chance: it drops no merges, and
/// is no unigram model, which may recall what it found under other scores.
pub open spec fn settled(m: Map<Seq<char>, NodeView>) -> bool {
    text_at(m, "/4/0"@) != Some("Unigram"@) && bool_at(m, "/4/1"@) == Some(false)
}

/// Whether a tokenizer of these settings encodes every text or refuses it in words.
pub open spec fn encodable(m: Map<Seq<char>, NodeView>) -> bool {
    &&& truncates(m)
    &&& pads(m)
    &&& keeps_apart(m)
    &&& !samples(m)
    &&& splits_forward(m)
    &&& sound(Stage::Normalizer, m, Stage::Normalizer.place(), false, DEPTH as nat)
    &&& sound(Stage::PreTokenizer, m, Stage::PreTokenizer.place(), false, DEPTH as nat)
    &&& sound(Stage::PostProcessor, m, Stage::PostProcessor.place(), false, DEPTH as nat)
}

/// Whether a tokenizer of these settings decodes all ids or refuses them in words.
pub open spec fn decodes_all(m: Map<Seq<char>, NodeView>) -> bool {
    sound(Stage::Decoder, m, Stage::Decoder.place(), false, DEPTH as nat)
}

/// Whether something is left of a token, if only the empty text, when up to `start` of the
/// characters `content` are cut at its start and up to `stop` at its end: it has another character,
/// or is long enough for both cuts.
pub open spec fn survives(t: Seq<char>, content: Seq<char>, start: u64, stop: u64) -> bool {
    ||| start + stop <= t.len()
    ||| exists|i: int| 0 <= i < t.len() && seq![#[trigger] t[i]] != content
}

/// Whether a decoder that does not work on all tokens works on these: an original BPE decoder where
/// there is a token, one that cuts at the end where each token survives the cuts.
pub open spec fn decodes_these(m: Map<Seq<char>, NodeView>, tokens: Seq<Seq<char>>) -> bool {
    ||| text_at(m, "/3/1/type"@) == Some("BPEDecoder"@) && tokens.len() > 0
    ||| text_at(m, "/3/1/type"@) == Some("Strip"@) && match (
        text_at(m, "/3/1/content"@),
        unsigned_at(m, "/3/1/start"@),
        unsigned_at(m, "/3/1/stop"@),
    ) {
        (Some(content), Some(start), Some(stop)) => forall|j: int|
            0 <= j < tokens.len() ==> survives(#[trigger] tokens[j], content, start, stop),
        _ => false,
    }
}

/// Whether a tokenizer of these settings decodes these tokens or refuses them in words.
pub open spec fn decodable(m: Map<Seq<char>, NodeView>, tokens: Seq<Seq<char>>) -> bool {
    decodes_all(m) || decodes_these(m, tokens)
}

impl Stage {
    fn list_name(self) -> (r: &'static str)
        ensures
            r@ == self.list(),
    {
        match self {
            Stage::Normalizer => "/normalizers",
            Stage::PreTokenizer => "/pretokenizers",
            Stage::PostProcessor => "/processors",
            Stage::Decoder => "/decoders",
        }
    }

    fn place_name(self) -> (r: &'static str)
        ensures
            r@ == self.place(),
    {
        match self {
            Stage::Normalizer => "/2/0",
            Stage::PreTokenizer => "/2/1",
            Stage::PostProcessor => "/3/0",
            Stage::Decoder => "/3/1",
        }
    }

    fn is_plain(self, kind: &str) -> (r: bool)
        ensures
            r == self.plain(kind@),
    {
        match self {
            Stage::Normalizer => same(kind, "BertNormalizer") || same(kind, "Strip") || same(
                kind,
                "StripAccents",
            ) || same(kind, "NFC") || same(kind, "NFD") || same(kind, "NFKC") || same(kind, "NFKD")
                || same(kind, "Lowercase") || same(kind, "Nmt") || same(kind, "ByteLevel"),
            Stage::PreTokenizer => same(kind, "BertPreTokenizer") || same(kind, "ByteLevel")
                || same(kind, "CharDelimiterSplit") || same(kind, "Metaspace") || same(
                kind,
                "Whitespace",
            ) || same(kind, "WhitespaceSplit") || same(kind, "Split") || same(kind, "Punctuation")
                || same(kind, "Digits") || same(kind, "UnicodeScripts"),
            Stage::PostProcessor => same(kind, "ByteLevel") || same(kind, "BertProcessing") || same(
                kind,
                "RobertaProcessing",
            ),
            Stage::Decoder => same(kind, "ByteLevel") || same(kind, "WordPiece") || same(
                kind,
                "Metaspace",
            ) || same(kind, "CTC") || same(kind, "Fuse") || same(kind, "ByteFallback"),
        }
    }

    fn check(self, document: &serde_json::Value, at: &str, kind: &str, nested: bool) -> (r: bool)
        ensures
            r == self.works(json_contents(*document), at@, kind@, nested),
    {
        if self.is_plain(kind) {
            return true;
        }
        match self {
            Stage::Normalizer => {
                let consumed = match read_text(document, cat2(at, "/pattern/Regex").as_str()) {
                    Some(p) => check_consumes(p.as_str()),
                    None => false,
                };
                (same(kind, "Prepend") && check_text(document, cat2(at, "/prepend").as_str())) || (
                same(kind, "Replace") && (check_text(
                    document,
                    cat2(at, "/pattern/String").as_str(),
                ) || consumed))
            },
            Stage::PreTokenizer => {
                let chunks = match read_unsigned(document, cat2(at, "/length").as_str()) {
                    Some(n) => n > 0,
                    None => false,
                };
                same(kind, "FixedLength") && chunks
            },
            Stage::PostProcessor => same(kind, "TemplateProcessing") && check_template(
                document,
                at,
                nested,
            ),
            Stage::Decoder => {
                let left_only = match read_unsigned(document, cat2(at, "/stop").as_str()) {
                    Some(n) => n == 0,
                    None => false,
                };
                (same(kind, "Strip") && left_only) || (same(kind, "Replace") && check_pattern(
                    document,
                    at,
                ))
            },
        }
    }
}

fn check_text(document: &serde_json::Value, at: &str) -> (r: bool)
    ensures
        r == says_something(text_at(json_contents(*document), at@)),
{
    match read_text(document, at) {
        Some(s) => s.as_str().unicode_len() > 0,
        None => false,
    }
}

fn check_resets(pattern: &str) -> (r: bool)
    ensures
        r == resets(pattern@),
{
    let n = pattern.unicode_len();
    let mut i: usize = 0;
    assert(pattern@.skip(0) =~= pattern@);
    while i < n && n - i >= 2
        invariant
            n == pattern@.len(),
            i <= n,
            resets(pattern@) == resets(pattern@.skip(i as int)),
        decreases n - i,
    {
        if pattern.get_char(i) == '\\' {
            if pattern.get_char(i + 1) == 'K' {
                return true;
            }
            assert(pattern@.skip(i as int).skip(2) =~= pattern@.skip(i + 2));
            i = i + 2;
        } else {
            assert(pattern@.skip(i as int).skip(1) =~= pattern@.skip(i + 1));
            i = i + 1;
        }
    }
    false
}

fn check_binding(p: &str, i: usize) -> (r: bool)
    requires
        i < p@.len(),
    ensures
        r == binding(p@, i as int),
{
    let c = p.get_char(i);
    if c == '*' || c == '?' || c == '|' || c == '(' {
        return false;
    }
    if c != '{' {
        return true;
    }
    if p.unicode_len() - i <= 1 {
        return false;
    }
    let next = p.get_char(i + 1);
    '1' <= next && next <= '9'
}

fn check_start(p: &str) -> (r: bool)
    requires
        p@.len() > 0,
    ensures
        r == (takes_in(p@[0]) || (p@.len() > 1 && p@[0] == '\\' && names_class(p@[1]))),
{
    let c = p.get_char(0);
    if ('a' <= c && c <= 'z') || ('A' <= c && c <= 'Z') || ('0' <= c && c <= '9') || c == ' ' || c
        == '.' || c == '[' || c > '~' {
        return true;
    }
    if p.unicode_len() <= 1 || c != '\\' {
        return false;
    }
    let c = p.get_char(1);
    c == 's' || c == 'S' || c == 'd' || c == 'D' || c == 'w' || c == 'W'
}

fn check_consumes(p: &str) -> (r: bool)
    ensures
        r == consumes(p@),
{
    let n = p.unicode_len();
    if n == 0 || !check_start(p) || check_resets(p) {
        return false;
    }
    let mut i: usize = 0;
    while i < n
        invariant
            n == p@.len(),
            i <= n,
            forall|k: int| 0 <= k < i ==> #[trigger] binding(p@, k),
        decreases n - i,
    {
        if !check_binding(p, i) {
            assert(!binding(p@, i as int));
            return false;
        }
        i = i + 1;
    }
    true
}

fn check_pattern(document: &serde_json::Value, at: &str) -> (r: bool)
    ensures
        r == matches_forward(json_contents(*document), at@),
{
    if let Some(_) = read_text(document, cat2(at, "/pattern/String").as_str()) {
        return true;
    }
    match read_text(document, cat2(at, "/pattern/Regex").as_str()) {
        Some(p) => !check_resets(p.as_str()),
        None => false,
    }
}

fn item_name(at: &str, i: usize) -> (r: String)
    ensures
        r@ == item(at@, i as int),
{
    cat3(at, "/", decimal(i as u64).as_str())
}

fn check_template(document: &serde_json::Value, at: &str, nested: bool) -> (r: bool)
    ensures
        r == fills_in(json_contents(*document), at@, nested),
{
    let ghost m = json_contents(*document);
    let single = cat2(at, "/single");
    let n = match read_array(document, single.as_str()) {
        Some(n) => n,
        None => return false,
    };
    let mut count: usize = 0;
    let mut i: usize = 0;
    while i < n
        invariant
            i <= n,
            m == json_contents(*document),
            single@ == at@ + "/single"@,
            array_at(m, single@) == Some(n),
            count <= i,
            count == sequences(m, at@, i as nat),
            forall|k: int| 0 <= k < i ==> #[trigger] piece(m, at@, k) != Some("B"@),
        decreases n - i,
    {
        let name = cat2(item_name(single.as_str(), i).as_str(), "/Sequence/id");
        match read_text(document, name.as_str()) {
            Some(id) => {
                if same(id.as_str(), "B") {
                    assert(piece(m, at@, i as int) == Some("B"@));
                    return false;
                }
                count = count + 1;
            },
            None => {},
        }
        i = i + 1;
    }
    !nested || count == 1
}

proof fn lemma_list_stops(
    stage: Stage,
    m: Map<Seq<char>, NodeView>,
    list: Seq<char>,
    k: nat,
    n: nat,
    depth: nat,
)
    requires
        k <= n,
        !all_sound(stage, m, list, k, depth),
    ensures
        !all_sound(stage, m, list, n, depth),
    decreases n,
{
    if k < n {
        lemma_list_stops(stage, m, list, k, (n - 1) as nat, depth);
    }
}

/// Whether the component at `at` works on every text.
fn check_component(
    stage: Stage,
    document: &serde_json::Value,
    at: &str,
    nested: bool,
    depth: usize,
) -> (r: bool)
    ensures
        r == sound(stage, json_contents(*document), at@, nested, depth as nat),
    decreases depth,
{
    let ghost m = json_contents(*document);
    let kind = match read_text(document, cat2(at, "/type").as_str()) {
        Some(kind) => kind,
        None => return match node_at(document, at) {
            None => true,
            Some(Node::Null) => true,
            Some(_) => false,
        },
    };
    if !same(kind.as_str(), "Sequence") {
        return stage.check(document, at, kind.as_str(), nested);
    }
    let list = cat2(at, stage.list_name());
    let n = match read_array(document, list.as_str()) {
        Some(n) => n,
        None => return false,
    };
    if depth == 0 {
        return false;
    }
    let mut i: usize = 0;
    while i < n
        invariant
            i <= n,
            depth > 0,
            m == json_contents(*document),
            list@ == at@ + stage.list(),
            array_at(m, at@ + stage.list()) == Some(n),
            text_at(m, at@ + "/type"@) == Some("Sequence"@),
            all_sound(stage, m, list@, i as nat, (depth - 1) as nat),
        decreases n - i,
    {
        let name = item_name(list.as_str(), i);
        if !check_component(stage, document, name.as_str(), true, depth - 1) {
            proof {
                lemma_list_stops(stage, m, list@, (i + 1) as nat, n as nat, (depth - 1) as nat);
            }
            return false;
        }
        i = i + 1;
    }
    true
}

fn check_truncation(document: &serde_json::Value) -> (r: bool)
    ensures
        r == truncates(json_contents(*document)),
{
    match node_at(document, "/0/0") {
        None => return true,
        Some(Node::Null) => return true,
        Some(_) => {},
    }
    match (
        read_unsigned(document, "/0/0/max_length"),
        read_unsigned(document, "/0/0/stride"),
    ) {
        (Some(max), Some(stride)) => max == 0 || stride < max,
        _ => false,
    }
}

fn check_padding(document: &serde_json::Value) -> (r: bool)
    ensures
        r == pads(json_contents(*document)),
{
    match node_at(document, "/0/1") {
        None => return true,
        Some(Node::Null) => return true,
        Some(_) => {},
    }
    if let Some(n) = read_unsigned(document, "/0/1/pad_to_multiple_of") {
        if n > MAX_PADDING {
            return false;
        }
    }
    if let Some(s) = read_text(document, "/0/1/strategy") {
        if same(s.as_str(), "BatchLongest") {
            return true;
        }
    }
    match read_unsigned(document, "/0/1/strategy/Fixed") {
        Some(n) => n <= MAX_PADDING,
        None => false,
    }
}

fn check_spaces(document: &serde_json::Value, n: usize, flag: &str) -> (r: bool)
    ensures
        r == keeps_spaces(json_contents(*document), n, flag@),
{
    let ghost m = json_contents(*document);
    let mut i: usize = 0;
    while i < n
        invariant
            i <= n,
            m == json_contents(*document),
            forall|k: int|
                0 <= k < i ==> bool_at(m, #[trigger] item("/1"@, k) + flag@) != Some(true),
        decreases n - i,
    {
        if let Some(b) = read_bool(document, cat2(item_name("/1", i).as_str(), flag).as_str()) {
            if b {
                assert(bool_at(m, item("/1"@, i as int) + flag@) == Some(true));
                return false;
            }
        }
        i = i + 1;
    }
    true
}

fn check_added(document: &serde_json::Value) -> (r: bool)
    ensures
        r == keeps_apart(json_contents(*document)),
{
    match read_array(document, "/1") {
        Some(n) => check_spaces(document, n, "/rstrip") || check_strips(document, n),
        None => false,
    }
}

fn check_visible(s: &str) -> (r: bool)
    ensures
        r == visible(s@),
{
    let n = s.unicode_len();
    let mut i: usize = 0;
    while i < n
        invariant
            n == s@.len(),
            i <= n,
            forall|k: int| 0 <= k < i ==> !('!' <= #[trigger] s@[k] <= '~'),
        decreases n - i,
    {
        let c = s.get_char(i);
        if '!' <= c && c <= '~' {
            assert('!' <= s@[i as int] <= '~');
            return true;
        }
        i = i + 1;
    }
    false
}

fn check_strips(document: &serde_json::Value, n: usize) -> (r: bool)
    ensures
        r == strips_apart(json_contents(*document), n),
{
    let ghost m = json_contents(*document);
    let mut i: usize = 0;
    while i < n
        invariant
            i <= n,
            m == json_contents(*document),
            forall|k: int|
                0 <= k < i && bool_at(m, #[trigger] item("/1"@, k) + "/lstrip"@) == Some(true)
                    ==> stands_out(m, k),
        decreases n - i,
    {
        let name = item_name("/1", i);
        let strips = match read_bool(document, cat2(name.as_str(), "/lstrip").as_str()) {
            Some(b) => b,
            None => false,
        };
        let written = match read_bool(document, cat2(name.as_str(), "/normalized").as_str()) {
            Some(b) => !b,
            None => false,
        };
        let shows = match read_text(document, cat2(name.as_str(), "/content").as_str()) {
            Some(t) => check_visible(t.as_str()),
            None => false,
        };
        if strips && !(written && shows) {
            assert(bool_at(m, item("/1"@, i as int) + "/lstrip"@) == Some(true));
            assert(!stands_out(m, i as int));
            return false;
        }
        i = i + 1;
    }
    true
}

fn check_samples(document: &serde_json::Value) -> (r: bool)
    ensures
        r == samples(json_contents(*document)),
{
    let unigram = match read_text(document, "/4/0") {
        Some(kind) => same(kind.as_str(), "Unigram"),
        None => false,
    };
    match read_bool(document, "/4/1") {
        Some(b) => unigram && b,
        None => false,
    }
}

fn check_splits(document: &serde_json::Value) -> (r: bool)
    ensures
        r == splits_forward(json_contents(*document)),
{
    match read_text(document, "/5") {
        Some(t) => !check_resets(t.as_str()),
        None => false,
    }
}

/// Tests whether a tokenizer of these settings encodes every text or refuses it in words.
pub fn check_encodable(document: &serde_json::Value) -> (r: bool)
    ensures
        r == encodable(json_contents(*document)),
{
    check_truncation(document) && check_padding(document) && check_added(document)
        && !check_samples(document) && check_splits(document) && check_component(
        Stage::Normalizer,
        document,
        Stage::Normalizer.place_name(),
        false,
        DEPTH,
    ) && check_component(
        Stage::PreTokenizer,
        document,
        Stage::PreTokenizer.place_name(),
        false,
        DEPTH,
    ) && check_component(
        Stage::PostProcessor,
        document,
        Stage::PostProcessor.place_name(),
        false,
        DEPTH,
    )
}

/// Tests whether a tokenizer of these settings decodes all ids or refuses them in words.
pub fn check_decodes_all(document: &serde_json::Value) -> (r: bool)
    ensures
        r == decodes_all(json_contents(*document)),
{
    check_component(Stage::Decoder, document, Stage::Decoder.place_name(), false, DEPTH)
}

fn check_survives(t: &str, content: &str, start: u64, stop: u64) -> (r: bool)
    ensures
        r == survives(t@, content@, start, stop),
{
    let n = t.unicode_len();
    if start <= n as u64 && stop <= n as u64 - start {
        return true;
    }
    let single = content.unicode_len() == 1;
    let mut i: usize = 0;
    while i < n
        invariant
            n == t@.len(),
            i <= n,
            single == (content@.len() == 1),
            forall|k: int| 0 <= k < i ==> seq![#[trigger] t@[k]] == content@,
        decreases n - i,
    {
        if !single || t.get_char(i) != content.get_char(0) {
            assert(seq![t@[i as int]] != content@) by {
                if single {
                    assert(seq![t@[i as int]][0] != content@[0]);
                } else {
                    assert(seq![t@[i as int]].len() == 1);
                }
            }
            return true;
        }
        assert(seq![t@[i as int]] =~= content@);
        i = i + 1;
    }
    false
}

fn check_cuts(tokens: &Vec<String>, content: &str, start: u64, stop: u64) -> (r: bool)
    ensures
        r == forall|j: int|
            0 <= j < tokens@.len() ==> survives(
                #[trigger] texts(tokens@)[j],
                content@,
                start,
                stop,
            ),
{
    let n = tokens.len();
    let mut i: usize = 0;
    while i < n
        invariant
            n == tokens@.len(),
            i <= n,
            forall|k: int|
                0 <= k < i ==> survives(#[trigger] texts(tokens@)[k], content@, start, stop),
        decreases n - i,
    {
        if !check_survives(tokens[i].as_str(), content, start, stop) {
            assert(!survives(texts(tokens@)[i as int], content@, start, stop));
            return false;
        }
        i = i + 1;
    }
    true
}

/// Tests whether a decoder that does not work on all tokens works on these.
pub fn check_decodes_these(document: &serde_json::Value, tokens: &Vec<String>) -> (r: bool)
    ensures
        r == decodes_these(json_contents(*document), texts(tokens@)),
{
    let kind = match read_text(document, "/3/1/type") {
        Some(kind) => kind,
        None => return false,
    };
    if same(kind.as_str(), "BPEDecoder") && tokens.len() > 0 {
        return true;
    }
    if !same(kind.as_str(), "Strip") {
        return false;
    }
    match (
        read_text(document, "/3/1/content"),
        read_unsigned(document, "/3/1/start"),
        read_unsigned(document, "/3/1/stop"),
    ) {
        (Some(content), Some(start), Some(stop)) => check_cuts(
            tokens,
            content.as_str(),
            start,
            stop,
        ),
        _ => false,
    }
}

/// All that a tokenizer may make of a text when it adds no special tokens: token ids, or why it
/// refuses the text. A model with dropout draws which of them comes out at random.
pub uninterp spec fn encodings(tok: tokenizers::Tokenizer, text: Seq<char>) -> Set<
    std::result::Result<Seq<u32>, Seq<char>>,
>;

/// What an encoding gave.
pub open spec fn given(r: std::result::Result<Vec<u32>, String>) -> std::result::Result<
    Seq<u32>,
    Seq<char>,
> {
    match r {
        Ok(v) => Ok(v@),
        Err(words) => Err(words@),
    }
}

/// Calls `tokenizers::Tokenizer::encode` without adding special tokens and copies out the ids. The
/// cache of a BPE model is cleared before: a word that was cached before the model was trained
/// again could have ids that are gone. Trusted: the outcome is one of those that the tokenizer and
/// the text allow, and the only one where the model is settled. Which of them it is remains unsaid
/// otherwise: a model with dropout draws it at random, and a unigram model may answer from its
/// cache. Settings on which the crate panics are left out.
#[verifier::external_body]
fn encode_ids(tok: &tokenizers::Tokenizer, text: &str) -> (r: std::result::Result<
    Vec<u32>,
    String,
>)
    requires
        settings(*tok) matches Ok(m) && encodable(m),
    ensures
        encodings(*tok, text@).contains(given(r)),
        settled(settings(*tok)->Ok_0) ==> encodings(*tok, text@) == Set::empty().insert(given(r)),
{
    match tok.get_model() {
        tokenizers::ModelWrapper::BPE(m) => m.clear_cache(),
        tokenizers::ModelWrapper::WordPiece(_) => {},
        tokenizers::ModelWrapper::WordLevel(_) => {},
        tokenizers::ModelWrapper::Unigram(_) => {},
    }
    tok.encode(text, false).map(|e| e.get_ids().to_vec()).map_err(|e| e.to_string())
}

/// The text of the token that a tokenizer has for an id.
pub uninterp spec fn token_text(tok: tokenizers::Tokenizer, id: u32) -> Option<Seq<char>>;

/// Calls `tokenizers::Tokenizer::id_to_token`. Trusted: the text is a function of the tokenizer and
/// the id.
#[verifier::external_body]
fn read_token(tok: &tokenizers::Tokenizer, id: u32) -> (r: Option<String>)
    ensures
        token_text(*tok, id) == match r {
            Some(t) => Some(t@),
            None => None,
        },
{
    tok.id_to_token(id)
}

/// Whether the text of a token is that of a special token.
pub uninterp spec fn special(tok: tokenizers::Tokenizer, token: Seq<char>) -> bool;

/// Calls `tokenizers::AddedVocabulary::is_special_token` on the added tokens of a tokenizer.
/// Trusted: the answer is a function of the tokenizer and the text.
#[verifier::external_body]
fn is_special(tok: &tokenizers::Tokenizer, token: &str) -> (r: bool)
    ensures
        r == special(*tok, token@),
{
    tok.get_added_vocabulary().is_special_token(token)
}

/// The texts of tokens.
pub open spec fn texts(tokens: Seq<String>) -> Seq<Seq<char>> {
    tokens.map_values(|t: String| t@)
}

/// The tokens that ids are decoded from: those that the tokenizer has and that are not special.
pub open spec fn tokens_of(tok: tokenizers::Tokenizer, ids: Seq<u32>) -> Seq<Seq<char>>
    decreases ids.len(),
{
    if ids.len() == 0 {
        seq![]
    } else {
        let before = tokens_of(tok, ids.drop_last());
        match token_text(tok, ids.last()) {
            Some(t) => if special(tok, t) {
                before
            } else {
                before.push(t)
            },
            None => before,
        }
    }
}

/// Reads the tokens that ids are decoded from.
fn read_tokens(tok: &tokenizers::Tokenizer, ids: &[u32]) -> (r: Vec<String>)
    ensures
        texts(r@) == tokens_of(*tok, ids@),
{
    let mut tokens: Vec<String> = Vec::new();
    let n = ids.len();
    let mut i: usize = 0;
    assert(texts(tokens@) =~= tokens_of(*tok, ids@.take(0)));
    while i < n
        invariant
            n == ids@.len(),
            i <= n,
            texts(tokens@) == tokens_of(*tok, ids@.take(i as int)),
        decreases n - i,
    {
        let ghost before = tokens@;
        assert(ids@.take(i + 1).drop_last() =~= ids@.take(i as int));
        if let Some(t) = read_token(tok, ids[i]) {
            if !is_special(tok, t.as_str()) {
                tokens.push(t);
                assert(texts(tokens@) =~= texts(before).push(t@));
            }
        }
        i = i + 1;
    }
    assert(ids@.take(n as int) =~= ids@);
    tokens
}

/// What a tokenizer makes of token ids when it skips special tokens: their text, or why it refuses
/// them.
pub uninterp spec fn decoding(tok: tokenizers::Tokenizer, ids: Seq<u32>) -> std::result::Result<
    Seq<char>,
    Seq<char>,
>;

/// Calls `tokenizers::Tokenizer::decode` and skips special tokens. Trusted: the outcome is a
/// function of the tokenizer and the ids. Settings on which the crate panics are left out.
#[verifier::external_body]
fn decode_text(tok: &tokenizers::Tokenizer, ids: &[u32]) -> (r: std::result::Result<
    String,
    String,
>)
    requires
        settings(*tok) matches Ok(m) && decodable(m, tokens_of(*tok, ids@)),
    ensures
        decoding(*tok, ids@) == match r {
            Ok(s) => Ok::<Seq<char>, Seq<char>>(s@),
            Err(words) => Err(words@),
        },
{
    tok.decode(ids, true).map_err(|e| e.to_string())
}

/// The outcome of an encoding, from what the tokenizer gave.
pub fn encoded(ids: std::result::Result<Vec<u32>, String>) -> (r: Result<Vec<u32>>)
    ensures
        match ids {
            Ok(v) => r == Ok::<Vec<u32>, EyebrowseError>(v),
            Err(words) => r is Err && r->Err_0@ == ErrorView::Load("encode: "@ + words@),
        },
{
    match ids {
        Ok(v) => Ok(v),
        Err(words) => Err(EyebrowseError::Load(cat2("encode: ", words.as_str()))),
    }
}

/// The outcome of a decoding, from what the tokenizer gave.
pub fn decoded(text: std::result::Result<String, String>) -> (r: Result<String>)
    ensures
        match text {
            Ok(s) => r == Ok::<String, EyebrowseError>(s),
            Err(words) => r is Err && r->Err_0@ == ErrorView::Load("decode: "@ + words@),
        },
{
    match text {
        Ok(s) => Ok(s),
        Err(words) => Err(EyebrowseError::Load(cat2("decode: ", words.as_str()))),
    }
}

/// Whether the result of an encoding is that of an outcome of the tokenizer.
pub open spec fn tells(
    r: Result<Vec<u32>>,
    outcome: std::result::Result<Seq<u32>, Seq<char>>,
) -> bool {
    match outcome {
        Ok(ids) => r is Ok && r->Ok_0@ == ids,
        Err(words) => r is Err && r->Err_0@ == ErrorView::Load("encode: "@ + words),
    }
}

/// What encoding a text gives: the outcome of the tokenizer, the only one where its model is
/// settled. A tokenizer that does not encode every text is refused.
pub open spec fn encodes(tok: tokenizers::Tokenizer, text: Seq<char>, r: Result<Vec<u32>>) -> bool {
    match settings(tok) {
        Err(words) => tells(r, Err(words)),
        Ok(m) => if !encodable(m) {
            tells(r, Err("unsupported tokenizer"@))
        } else {
            &&& exists|outcome: std::result::Result<Seq<u32>, Seq<char>>| #[trigger]
                encodings(tok, text).contains(outcome) && tells(r, outcome)
            &&& settled(m) ==> forall|outcome: std::result::Result<Seq<u32>, Seq<char>>|
                #[trigger] encodings(tok, text).contains(outcome) ==> tells(r, outcome)
        },
    }
}

/// A text has one encoding, whenever it is asked for, with a tokenizer whose model neither drops
/// merges nor is a unigram model; a refusal too has the same words each time.
pub proof fn lemma_one_encoding(
    tok: tokenizers::Tokenizer,
    text: Seq<char>,
    a: Result<Vec<u32>>,
    b: Result<Vec<u32>>,
)
    requires
        encodes(tok, text, a),
        encodes(tok, text, b),
        settings(tok) matches Ok(m) ==> settled(m),
    ensures
        seen(a) == seen(b),
{
    if settings(tok) is Ok && encodable(settings(tok)->Ok_0) {
        let outcome = choose|outcome: std::result::Result<Seq<u32>, Seq<char>>| #[trigger]
            encodings(tok, text).contains(outcome) && tells(a, outcome);
        assert(tells(b, outcome));
    }
}

/// Encodes `text` into token ids (no special tokens added): the ids are those that the tokenizer
/// gave for this text, and a refusal carries the tokenizer's words. A tokenizer that does not
/// encode every text is refused.
pub fn encode(tok: &tokenizers::Tokenizer, text: &str) -> (r: Result<Vec<u32>>)
    ensures
        encodes(*tok, text@, r),
{
    match read_settings(tok) {
        Err(words) => encoded(Err(words)),
        Ok(document) => {
            if check_encodable(&document) {
                let ids = encode_ids(tok, text);
                let ghost outcome = given(ids);
                let r = encoded(ids);
                assert(tells(r, outcome));
                r
            } else {
                encoded(Err("unsupported tokenizer".to_owned()))
            }
        },
    }
}

/// Decodes token ids back into a string (special tokens skipped). A tokenizer that decodes neither
/// all ids nor these is refused.
pub fn decode(tok: &tokenizers::Tokenizer, ids: &[u32]) -> (r: Result<String>)
    ensures
        seen(r) == match settings(*tok) {
            Err(words) => Err::<Seq<char>, ErrorView>(ErrorView::Load("decode: "@ + words)),
            Ok(m) => if !decodable(m, tokens_of(*tok, ids@)) {
                Err(ErrorView::Load("decode: "@ + "unsupported tokenizer"@))
            } else {
                match decoding(*tok, ids@) {
                    Ok(s) => Ok(s),
                    Err(words) => Err(ErrorView::Load("decode: "@ + words)),
                }
            },
        },
{
    match read_settings(tok) {
        Err(words) => decoded(Err(words)),
        Ok(document) => {
            if check_decodes_all(&document) || check_decodes_these(
                &document,
                &read_tokens(tok, ids),
            ) {
                decoded(decode_text(tok, ids))
            } else {
                decoded(Err("unsupported tokenizer".to_owned()))
            }
        },
    }
}

/// What is decoded of an id: the token's text, unless the tokenizer has no such token or the token
/// is special. The ids of two runs are decoded one run after the other.
pub proof fn lemma_tokens_of(tok: tokenizers::Tokenizer, id: u32, a: Seq<u32>, b: Seq<u32>)
    ensures
        token_text(tok, id) matches Some(t) ==> (!special(tok, t) ==> tokens_of(tok, seq![id])
            == seq![t]) && (special(tok, t) ==> tokens_of(tok, seq![id]).len() == 0),
        token_text(tok, id) is None ==> tokens_of(tok, seq![id]).len() == 0,
        tokens_of(tok, a + b) == tokens_of(tok, a) + tokens_of(tok, b),
    decreases b.len(),
{
    let one = seq![id];
    assert(one.drop_last() =~= Seq::<u32>::empty());
    assert(one.last() == id);
    assert(tokens_of(tok, one.drop_last()) =~= seq![]);
    if token_text(tok, id) is Some && !special(tok, token_text(tok, id)->Some_0) {
        assert(tokens_of(tok, one) =~= seq![token_text(tok, id)->Some_0]);
    }
    if b.len() == 0 {
        assert(a + b =~= a);
        assert(tokens_of(tok, b) =~= seq![]);
        assert(tokens_of(tok, a) + tokens_of(tok, b) =~= tokens_of(tok, a));
    } else {
        let d = b.drop_last();
        lemma_tokens_of(tok, id, a, d);
        assert((a + b).drop_last() =~= a + d);
        assert((a + b).last() == b.last());
        assert(tokens_of(tok, a + b) =~= tokens_of(tok, a) + tokens_of(tok, b));
    }
}

/// A list of components works exactly where each of its components does.
pub proof fn lemma_all_sound(
    stage: Stage,
    m: Map<Seq<char>, NodeView>,
    list: Seq<char>,
    n: nat,
    depth: nat,
)
    ensures
        all_sound(stage, m, list, n, depth) <==> forall|i: int|
            0 <= i < n ==> sound(stage, m, #[trigger] item(list, i), true, depth),
    decreases n,
{
    if n > 0 {
        lemma_all_sound(stage, m, list, (n - 1) as nat, depth);
        assert(sound(stage, m, item(list, n - 1), true, depth) || !sound(
            stage,
            m,
            item(list, n - 1),
            true,
            depth,
        ));
    }
}

/// A backslash before a `K` resets a match unless a backslash escapes it; other characters neither
/// reset a match nor keep a later reset from counting.
pub proof fn lemma_resets(c: char, p: Seq<char>)
    ensures
        c != '\\' ==> resets(seq![c] + p) == resets(p),
        resets(seq!['\\', 'K'] + p),
        c != 'K' ==> resets(seq!['\\', c] + p) == resets(p),
        !p.contains('\\') ==> !resets(p),
    decreases p.len(),
{
    let (one, two, three) = (seq![c] + p, seq!['\\', 'K'] + p, seq!['\\', c] + p);
    assert(one.skip(1) =~= p);
    assert(one[0] == c);
    assert(two[0] == '\\' && two[1] == 'K');
    assert(three[0] == '\\' && three[1] == c);
    assert(three.skip(2) =~= p);
    if !p.contains('\\') && p.len() >= 2 {
        assert(p.contains(p[0]));
        let rest = p.skip(1);
        assert forall|i: int| 0 <= i < rest.len() implies rest[i] != '\\' by {
            assert(rest[i] == p[i + 1]);
            assert(p.contains(p[i + 1]));
        }
        lemma_resets(c, rest);
    }
}

/// The result of an encoding is the outcome of the tokenizer: its ids, or its words after what
/// could not be done.
pub proof fn lemma_tells(
    r: Result<Vec<u32>>,
    outcome: std::result::Result<Seq<u32>, Seq<char>>,
)
    requires
        tells(r, outcome),
    ensures
        match outcome {
            Ok(ids) => seen(r) == Ok::<Seq<u32>, ErrorView>(ids),
            Err(words) => seen(r) is Err && seen(r)->Err_0.sentence() == "load error: "@ + (
            "encode: "@ + words),
        },
{
}

/// A component of one of the kinds that work on every text is accepted, by itself and in a list,
/// and so is a step without a component.
pub proof fn lemma_plain_components(
    stage: Stage,
    m: Map<Seq<char>, NodeView>,
    at: Seq<char>,
    kind: Seq<char>,
    nested: bool,
    depth: nat,
)
    requires
        stage is Normalizer && (kind == "NFC"@ || kind == "NFKC"@ || kind == "NFD"@ || kind
            == "NFKD"@ || kind == "Lowercase"@ || kind == "BertNormalizer"@ || kind == "StripAccents"@)
            || stage is PreTokenizer && (kind == "ByteLevel"@ || kind == "Split"@ || kind
            == "Metaspace"@ || kind == "Whitespace"@ || kind == "Digits"@ || kind == "Punctuation"@
            || kind == "BertPreTokenizer"@) || stage is PostProcessor && (kind == "ByteLevel"@
            || kind == "BertProcessing"@ || kind == "RobertaProcessing"@) || stage is Decoder && (
        kind == "ByteLevel"@ || kind == "WordPiece"@ || kind == "Metaspace"@ || kind == "Fuse"@
            || kind == "ByteFallback"@),
        text_at(m, at + "/type"@) == Some(kind),
    ensures
        sound(stage, m, at, nested, depth),
{
    reveal_strlit("Sequence");
    reveal_strlit("NFC");
    reveal_strlit("NFKC");
    reveal_strlit("NFD");
    reveal_strlit("NFKD");
    reveal_strlit("Lowercase");
    reveal_strlit("BertNormalizer");
    reveal_strlit("StripAccents");
    reveal_strlit("ByteLevel");
    reveal_strlit("Split");
    reveal_strlit("Metaspace");
    reveal_strlit("Whitespace");
    reveal_strlit("Digits");
    reveal_strlit("Punctuation");
    reveal_strlit("BertPreTokenizer");
    reveal_strlit("BertProcessing");
    reveal_strlit("RobertaProcessing");
    reveal_strlit("WordPiece");
    reveal_strlit("Fuse");
    reveal_strlit("ByteFallback");
    assert("Sequence"@.len() == 8 && "Sequence"@[0] == 'S');
    assert(kind.len() != 8);
}

/// The usual byte-level tokenizer is accepted: without truncation and padding, without added tokens
/// that take in spaces, with a model that is no unigram model, with an expression that resets no
/// match, and with plain components or none.
pub proof fn lemma_usual_tokenizer(m: Map<Seq<char>, NodeView>, n: usize, shown: Seq<char>)
    requires
        found(m, "/0/0"@) is None,
        found(m, "/0/1"@) is None,
        array_at(m, "/1"@) == Some(n),
        forall|i: int| 0 <= i < n ==> bool_at(m, #[trigger] item("/1"@, i) + "/rstrip"@) != Some(true),
        text_at(m, "/4/0"@) == Some("BPE"@),
        text_at(m, "/5"@) == Some(shown),
        !resets(shown),
        sound(Stage::Normalizer, m, "/2/0"@, false, DEPTH as nat),
        sound(Stage::PreTokenizer, m, "/2/1"@, false, DEPTH as nat),
        sound(Stage::PostProcessor, m, "/3/0"@, false, DEPTH as nat),
    ensures
        encodable(m),
{
    reveal_strlit("BPE");
    reveal_strlit("Unigram");
    assert("BPE"@.len() != "Unigram"@.len());
}

/// Settings on which an encoding would not end in ids or in words are refused: windows that overlap
/// by their length or more, padding without bounds, sampling, and a component that does not work.
pub proof fn lemma_unusable_tokenizer(m: Map<Seq<char>, NodeView>, max: u64, stride: u64)
    requires
        ({
            ||| found(m, "/0/0"@) is Some && unsigned_at(m, "/0/0/max_length"@) == Some(max)
                && unsigned_at(m, "/0/0/stride"@) == Some(stride) && 0 < max <= stride
            ||| found(m, "/0/1"@) is Some && unsigned_at(m, "/0/1/pad_to_multiple_of"@) == Some(max)
                && max > 0x100_0000
            ||| text_at(m, "/4/0"@) == Some("Unigram"@) && bool_at(m, "/4/1"@) == Some(true)
            ||| text_at(m, "/5"@) matches Some(t) && resets(t)
            ||| !sound(Stage::Normalizer, m, "/2/0"@, false, 16)
            ||| !sound(Stage::PreTokenizer, m, "/2/1"@, false, 16)
            ||| !sound(Stage::PostProcessor, m, "/3/0"@, false, 16)
        }),
    ensures
        !encodable(m),
{
}

} // verus!
