//! Byte-level BPE tokenizer, built from the metadata of a GGUF file.

use crate::byte_table::{byte_char, byte_decoder, char_byte, lookup};
use crate::gguf::{views, Metadata, MetadataValue, MetadataView};
use crate::pieces::{collapsed, law_pieces_make_up_the_text, law_words_make_up_the_text};
use crate::pieces::{pieces, split_pieces, split_words, texts, without_space, words};
use crate::text::{chars_of, text_eq};
use crate::utf8::{decode_lossy, law_decoders_agree, lossy, scalar};
use vstd::hash_map::StringHashMap;
use vstd::prelude::*;
use vstd::string::StringExecFns;
use vstd::utf8::encode_utf8;

verus! {

broadcast use vstd::string::group_string_axioms;

/// What kind of token an entry is.
#[derive(Debug, Clone, Copy, PartialEq, Eq, Structural)]
pub enum TokenType {
    Undefined,
    Normal,
    Unknown,
    Control,
    Byte,
}

impl TokenType {
    /// The type that a number stands for; undefined for every other number.
    pub open spec fn with_id(v: i32) -> Self {
        if v == 1 {
            Self::Normal
        } else if v == 2 {
            Self::Unknown
        } else if v == 3 {
            Self::Control
        } else if v == 4 {
            Self::Byte
        } else {
            Self::Undefined
        }
    }

    pub fn from_i32(v: i32) -> (r: Self)
        ensures
            r == Self::with_id(v),
    {
        match v {
            1 => Self::Normal,
            2 => Self::Unknown,
            3 => Self::Control,
            4 => Self::Byte,
            _ => Self::Undefined,
        }
    }
}

/// What an entry of the vocabulary says.
#[verifier::ext_equal]
pub struct EntryView {
    pub text: Seq<char>,
    pub score: u32,
    pub token_type: TokenType,
}

/// An entry of the vocabulary. The score is a single-precision pattern.
#[derive(Debug, Clone)]
pub struct TokenEntry {
    pub text: String,
    pub score: u32,
    pub token_type: TokenType,
}

impl View for TokenEntry {
    type V = EntryView;

    open spec fn view(&self) -> EntryView {
        EntryView { text: self.text@, score: self.score, token_type: self.token_type }
    }
}

/// What each entry says.
pub open spec fn entry_views(v: Seq<TokenEntry>) -> Seq<EntryView> {
    Seq::new(v.len(), |i: int| v[i]@)
}

/// How many characters stand in front of the first blank.
pub open spec fn before_blank(s: Seq<char>) -> nat
    decreases s.len(),
{
    if s.len() == 0 || s[0] == ' ' {
        0
    } else {
        1 + before_blank(s.drop_first())
    }
}

/// A merge rule: what stands in front of the first blank, and what stands behind
/// it.
pub open spec fn rule_of(s: Seq<char>) -> Option<(Seq<char>, Seq<char>)> {
    let n = before_blank(s) as int;
    if n < s.len() {
        Some((s.take(n), s.skip(n + 1)))
    } else {
        None
    }
}

pub(crate) proof fn lemma_before_blank(s: Seq<char>)
    ensures
        before_blank(s) <= s.len(),
        before_blank(s) < s.len() ==> s[before_blank(s) as int] == ' ',
        !s.take(before_blank(s) as int).contains(' '),
    decreases s.len(),
{
    let n = before_blank(s) as int;
    if s.len() > 0 && s[0] != ' ' {
        let t = s.drop_first();
        lemma_before_blank(t);
        if s.take(n).contains(' ') {
            let i = s.take(n).index_of(' ');
            assert(s.take(n)[i] == ' ');
            assert(t.take(n - 1)[i - 1] == ' ');
        }
    }
}

/// Two texts with a blank between them.
pub open spec fn spaced(a: Seq<char>, b: Seq<char>) -> Seq<char> {
    a + seq![' '] + b
}

pub(crate) proof fn lemma_spaced(a: Seq<char>, b: Seq<char>)
    requires
        !a.contains(' '),
    ensures
        before_blank(spaced(a, b)) == a.len(),
        rule_of(spaced(a, b)) == Some((a, b)),
    decreases a.len(),
{
    let s = spaced(a, b);
    if a.len() > 0 {
        let t = a.drop_first();
        assert(a.contains(a[0]));
        assert forall|c: char| t.contains(c) implies a.contains(c) by {
            let i = t.index_of(c);
            assert(a[i + 1] == c);
        }
        lemma_spaced(t, b);
        assert(s.drop_first() =~= spaced(t, b));
    }
    assert(s.take(a.len() as int) =~= a);
    assert(s.skip(a.len() as int + 1) =~= b);
}

/// BPE merge rules and their priorities (lower = higher priority).
pub struct MergeTable {
    rules: StringHashMap<usize>,
}

impl View for MergeTable {
    type V = Map<(Seq<char>, Seq<char>), usize>;

    closed spec fn view(&self) -> Map<(Seq<char>, Seq<char>), usize> {
        Map::new(
            |p: (Seq<char>, Seq<char>)|
                !p.0.contains(' ') && self.rules@.contains_key(spaced(p.0, p.1)),
            |p: (Seq<char>, Seq<char>)| self.rules@[spaced(p.0, p.1)],
        )
    }
}

fn has_blank(s: &str) -> (r: bool)
    ensures
        r == s@.contains(' '),
{
    let c = chars_of(s);
    let mut i: usize = 0;
    while i < c.len()
        invariant
            i <= c@.len(),
            c@ == s@,
            forall|j: int| 0 <= j < i ==> c@[j] != ' ',
        decreases c@.len() - i,
    {
        if c[i] == ' ' {
            assert(s@[i as int] == ' ');
            return true;
        }
        i += 1;
    }
    false
}

fn join_spaced(a: &str, b: &str) -> (r: String)
    ensures
        r@ == spaced(a@, b@),
{
    let mut s = a.to_owned();
    s.push(' ');
    s.append(b);
    assert(s@ =~= spaced(a@, b@));
    s
}

impl MergeTable {
    /// No rules.
    pub fn new() -> (r: Self)
        ensures
            r@ == Map::<(Seq<char>, Seq<char>), usize>::empty(),
    {
        let r = MergeTable { rules: StringHashMap::new() };
        assert(r@ =~= Map::empty());
        r
    }

    /// Sets the priority of a rule, given as two texts with a blank between them.
    /// Gives back whether there is a blank.
    pub fn insert(&mut self, rule: &str, priority: usize) -> (r: bool)
        ensures
            r == (rule_of(rule@) is Some),
            final(self)@ == (match rule_of(rule@) {
                Some(p) => old(self)@.insert(p, priority),
                None => old(self)@,
            }),
    {
        proof {
            lemma_before_blank(rule@);
        }
        if !has_blank(rule) {
            proof {
                if before_blank(rule@) < rule@.len() {
                    assert(rule@.contains(rule@[before_blank(rule@) as int]));
                }
            }
            return false;
        }
        proof {
            if before_blank(rule@) == rule@.len() {
                assert(rule@.take(rule@.len() as int) =~= rule@);
            }
            let n = before_blank(rule@) as int;
            let p = rule_of(rule@)->0;
            assert(rule@ =~= spaced(p.0, p.1));
        }
        let ghost before = self.rules@;
        self.rules.insert(rule.to_owned(), priority);
        proof {
            let p = rule_of(rule@)->0;
            assert forall|q: (Seq<char>, Seq<char>)|
                !q.0.contains(' ') && spaced(q.0, q.1) == rule@ implies q == p by {
                lemma_spaced(q.0, q.1);
            }
            assert(self@ =~= old(self)@.insert(p, priority));
        }
        true
    }

    /// The priority of the rule that merges `a` and `b`.
    pub fn get(&self, a: &str, b: &str) -> (r: Option<usize>)
        ensures
            match r {
                Some(p) => self@.contains_key((a@, b@)) && self@[(a@, b@)] == p,
                None => !self@.contains_key((a@, b@)),
            },
    {
        if has_blank(a) {
            return None;
        }
        let key = join_spaced(a, b);
        match self.rules.get(key.as_str()) {
            Some(p) => Some(*p),
            None => None,
        }
    }
}

/// The array under a key, or an empty one.
pub open spec fn array_of(m: Map<Seq<char>, MetadataView>, key: Seq<char>) -> Seq<MetadataView> {
    if has_array(m, key) {
        m[key]->Array_0
    } else {
        Seq::empty()
    }
}

/// There is an array under a key.
pub open spec fn has_array(m: Map<Seq<char>, MetadataView>, key: Seq<char>) -> bool {
    m.contains_key(key) && m[key] is Array
}

fn array_at<'a>(m: &'a Metadata, key: &str) -> (r: Option<&'a Vec<MetadataValue>>)
    ensures
        r is Some <==> has_array(m@, key@),
        match r {
            Some(a) => array_of(m@, key@) == views(a@),
            None => array_of(m@, key@) == Seq::<MetadataView>::empty(),
        },
{
    match m.get(key) {
        Some(v) => v.to_array(),
        None => None,
    }
}

/// The text of a value that is one.
pub open spec fn text_value(v: MetadataView) -> Seq<char> {
    match v {
        MetadataView::String(s) => s,
        _ => Seq::empty(),
    }
}

/// The score of entry `i`, or zero.
pub open spec fn score_of(scores: Seq<MetadataView>, i: int) -> u32 {
    if 0 <= i < scores.len() {
        match scores[i].as_f32() {
            Some(s) => s,
            None => 0,
        }
    } else {
        0
    }
}

/// The type of entry `i`; undefined where there is none.
pub open spec fn type_of(types: Seq<MetadataView>, i: int) -> TokenType {
    if 0 <= i < types.len() {
        match types[i].as_i32() {
            Some(t) => TokenType::with_id(t),
            None => TokenType::Undefined,
        }
    } else {
        TokenType::Undefined
    }
}

/// The vocabulary that tokens, scores and types make up.
pub open spec fn vocab_of(
    tokens: Seq<MetadataView>,
    scores: Seq<MetadataView>,
    types: Seq<MetadataView>,
) -> Seq<EntryView> {
    Seq::new(
        tokens.len(),
        |i: int|
            EntryView {
                text: text_value(tokens[i]),
                score: score_of(scores, i),
                token_type: type_of(types, i),
            },
    )
}

/// The position of each text in the vocabulary; of texts that come more than
/// once, the last.
pub open spec fn positions(vocab: Seq<EntryView>) -> Map<Seq<char>, usize>
    decreases vocab.len(),
{
    if vocab.len() == 0 {
        Map::empty()
    } else {
        positions(vocab.drop_last()).insert(vocab.last().text, (vocab.len() - 1) as usize)
    }
}

/// The merge rules of an array of texts, each with its position as its priority;
/// of rules that come more than once, the last. What is no rule is passed over.
pub open spec fn rules_of(rules: Seq<MetadataView>) -> Map<(Seq<char>, Seq<char>), usize>
    decreases rules.len(),
{
    if rules.len() == 0 {
        Map::empty()
    } else {
        let rest = rules_of(rules.drop_last());
        match rules.last() {
            MetadataView::String(s) => match rule_of(s) {
                Some(p) => rest.insert(p, (rules.len() - 1) as usize),
                None => rest,
            },
            _ => rest,
        }
    }
}

/// The name of the pre-tokenizer.
pub open spec fn pre_type_of(m: Map<Seq<char>, MetadataView>) -> Seq<char> {
    let key = "tokenizer.ggml.pre"@;
    if m.contains_key(key) && m[key] is String {
        m[key]->String_0
    } else {
        "unknown"@
    }
}

/// The id under one key, or under another where that is missing.
pub open spec fn special_id(
    m: Map<Seq<char>, MetadataView>,
    key: Seq<char>,
    other: Seq<char>,
) -> Option<usize> {
    let v = if m.contains_key(key) {
        m[key].as_i32()
    } else if m.contains_key(other) {
        m[other].as_i32()
    } else {
        None
    };
    match v {
        Some(n) => Some(n as usize),
        None => None,
    }
}

fn find_special(m: &Metadata, key: &str, other: &str) -> (r: Option<usize>)
    ensures
        r == special_id(m@, key@, other@),
{
    let v = match m.get(key) {
        Some(v) => v.to_i32(),
        None => match m.get(other) {
            Some(v) => v.to_i32(),
            None => None,
        },
    };
    match v {
        Some(n) => Some(n as usize),
        None => None,
    }
}

/// The position of a text, where there is one.
pub open spec fn position(m: Map<Seq<char>, usize>, text: Seq<char>) -> Option<usize> {
    if m.contains_key(text) {
        Some(m[text])
    } else {
        None
    }
}

/// A vocabulary with its merge rules and special tokens.
pub struct Tokenizer {
    /// Vocabulary: token_id -> token text
    pub vocab: Vec<TokenEntry>,
    /// Reverse lookup: token text -> token_id
    pub vocab_map: StringHashMap<usize>,
    /// BPE merge rules: "token_a token_b" -> priority (lower = higher priority)
    pub merges: MergeTable,
    /// Pre-tokenizer type
    pub pre_type: String,
    /// Special tokens
    pub bos_token_id: Option<usize>,
    pub eos_token_id: Option<usize>,
    /// Token IDs for common stop tokens (e.g., ChatML end-of-turn)
    pub im_end_token_id: Option<usize>,
    pub im_start_token_id: Option<usize>,
}

fn build_vocab(
    tokens: &Vec<MetadataValue>,
    scores: Option<&Vec<MetadataValue>>,
    types: Option<&Vec<MetadataValue>>,
) -> (r: (Vec<TokenEntry>, StringHashMap<usize>))
    ensures
        entry_views(r.0@) == vocab_of(
            views(tokens@),
            match scores {
                Some(s) => views(s@),
                None => Seq::empty(),
            },
            match types {
                Some(t) => views(t@),
                None => Seq::empty(),
            },
        ),
        r.1@ == positions(entry_views(r.0@)),
{
    let ghost sv = match scores {
        Some(s) => views(s@),
        None => Seq::empty(),
    };
    let ghost tv = match types {
        Some(t) => views(t@),
        None => Seq::empty(),
    };
    let mut vocab: Vec<TokenEntry> = Vec::new();
    let mut vocab_map: StringHashMap<usize> = StringHashMap::new();
    let mut i: usize = 0;
    while i < tokens.len()
        invariant
            i <= tokens@.len(),
            vocab@.len() == i,
            sv == (match scores {
                Some(s) => views(s@),
                None => Seq::empty(),
            }),
            tv == (match types {
                Some(t) => views(t@),
                None => Seq::empty(),
            }),
            forall|j: int|
                0 <= j < i ==> #[trigger] vocab@[j]@ == vocab_of(views(tokens@), sv, tv)[j],
            vocab_map@ == positions(entry_views(vocab@)),
        decreases tokens@.len() - i,
    {
        let text: String = match tokens[i].to_string_ref() {
            Some(s) => s.to_owned(),
            None => String::new(),
        };
        let score: u32 = match scores {
            Some(s) => if i < s.len() {
                match s[i].to_f32() {
                    Some(x) => x,
                    None => 0,
                }
            } else {
                0
            },
            None => 0,
        };
        let kind: i32 = match types {
            Some(t) => if i < t.len() {
                match t[i].to_i32() {
                    Some(x) => x,
                    None => 0,
                }
            } else {
                0
            },
            None => 0,
        };
        let ghost before = entry_views(vocab@);
        vocab_map.insert(text.clone(), i);
        let entry = TokenEntry { text, score, token_type: TokenType::from_i32(kind) };
        proof {
            assert(views(tokens@)[i as int] == tokens@[i as int]@);
            assert(entry@ =~= vocab_of(views(tokens@), sv, tv)[i as int]);
        }
        vocab.push(entry);
        assert(entry_views(vocab@).drop_last() =~= before);
        i += 1;
    }
    assert(entry_views(vocab@) =~= vocab_of(views(tokens@), sv, tv));
    (vocab, vocab_map)
}

fn build_merges(rules: &Vec<MetadataValue>) -> (r: MergeTable)
    ensures
        r@ == rules_of(views(rules@)),
{
    let mut merges = MergeTable::new();
    let mut i: usize = 0;
    assert(views(rules@).take(0) =~= Seq::empty());
    while i < rules.len()
        invariant
            i <= rules@.len(),
            merges@ == rules_of(views(rules@).take(i as int)),
        decreases rules@.len() - i,
    {
        proof {
            let s = views(rules@).take(i + 1);
            assert(s.drop_last() =~= views(rules@).take(i as int));
            assert(s.last() == rules@[i as int]@);
        }
        match rules[i].to_string_ref() {
            Some(s) => {
                let _ = merges.insert(s, i);
            },
            None => {},
        }
        i += 1;
    }
    assert(views(rules@).take(i as int) =~= views(rules@));
    merges
}

impl Tokenizer {
    /// The reverse lookup knows every text of the vocabulary, and nothing else.
    pub open spec fn wf(&self) -> bool {
        self.vocab_map@ == positions(entry_views(self.vocab@))
    }

    /// Build tokenizer from GGUF metadata, which has a vocabulary
    pub fn from_gguf_metadata(metadata: &Metadata) -> (r: Self)
        requires
            has_array(metadata@, "tokenizer.ggml.tokens"@),
        ensures
            r.wf(),
            entry_views(r.vocab@) == vocab_of(
                array_of(metadata@, "tokenizer.ggml.tokens"@),
                array_of(metadata@, "tokenizer.ggml.scores"@),
                array_of(metadata@, "tokenizer.ggml.token_type"@),
            ),
            r.merges@ == rules_of(array_of(metadata@, "tokenizer.ggml.merges"@)),
            r.pre_type@ == pre_type_of(metadata@),
            r.bos_token_id == special_id(
                metadata@,
                "tokenizer.ggml.bos_token_id"@,
                "tokenizer.ggml.bos_id"@,
            ),
            r.eos_token_id == special_id(
                metadata@,
                "tokenizer.ggml.eos_token_id"@,
                "tokenizer.ggml.eos_id"@,
            ),
            r.im_end_token_id == position(r.vocab_map@, "<|im_end|>"@),
            r.im_start_token_id == position(r.vocab_map@, "<|im_start|>"@),
    {
        let empty: Vec<MetadataValue> = Vec::new();
        assert(views(empty@) =~= Seq::empty());
        let tokens = match array_at(metadata, "tokenizer.ggml.tokens") {
            Some(t) => t,
            None => &empty,
        };
        let scores = array_at(metadata, "tokenizer.ggml.scores");
        let types = array_at(metadata, "tokenizer.ggml.token_type");
        let (vocab, vocab_map) = build_vocab(tokens, scores, types);
        let merges = match array_at(metadata, "tokenizer.ggml.merges") {
            Some(rules) => build_merges(rules),
            None => build_merges(&empty),
        };
        let pre_type = match metadata.get("tokenizer.ggml.pre") {
            Some(v) => match v.to_string_ref() {
                Some(s) => s.to_owned(),
                None => "unknown".to_owned(),
            },
            None => "unknown".to_owned(),
        };
        let bos_token_id = find_special(
            metadata,
            "tokenizer.ggml.bos_token_id",
            "tokenizer.ggml.bos_id",
        );
        let eos_token_id = find_special(
            metadata,
            "tokenizer.ggml.eos_token_id",
            "tokenizer.ggml.eos_id",
        );
        let im_end_token_id = match vocab_map.get("<|im_end|>") {
            Some(id) => Some(*id),
            None => None,
        };
        let im_start_token_id = match vocab_map.get("<|im_start|>") {
            Some(id) => Some(*id),
            None => None,
        };
        Tokenizer {
            vocab,
            vocab_map,
            merges,
            pre_type,
            bos_token_id,
            eos_token_id,
            im_end_token_id,
            im_start_token_id,
        }
    }

    /// Get token text by ID
    pub fn id_to_token(&self, id: usize) -> (r: Option<&str>)
        ensures
            match r {
                Some(t) => id < self.vocab@.len() && t@ == self.vocab@[id as int].text@,
                None => id >= self.vocab@.len(),
            },
    {
        if id < self.vocab.len() {
            Some(self.vocab[id].text.as_str())
        } else {
            None
        }
    }

    /// Vocabulary size
    pub fn vocab_size(&self) -> (r: usize)
        ensures
            r == self.vocab@.len(),
    {
        self.vocab.len()
    }
}

/// The token that a byte starts as: the character of its own number where the
/// vocabulary has it, else the one 256 higher.
pub open spec fn byte_token(vocab: Map<Seq<char>, usize>, b: u8) -> Seq<char> {
    if vocab.contains_key(seq![b as char]) {
        seq![b as char]
    } else {
        seq![(256 + b) as char]
    }
}

/// The tokens that a piece starts as, one for each byte of its UTF-8 form.
pub open spec fn byte_tokens(vocab: Map<Seq<char>, usize>, piece: Seq<char>) -> Seq<Seq<char>> {
    encode_utf8(piece).map_values(|b: u8| byte_token(vocab, b))
}

/// A rule merges tokens `i` and `i + 1`.
pub open spec fn mergeable(
    merges: Map<(Seq<char>, Seq<char>), usize>,
    tokens: Seq<Seq<char>>,
    i: int,
) -> bool {
    &&& 0 <= i < tokens.len() - 1
    &&& merges.contains_key((tokens[i], tokens[i + 1]))
    &&& merges[(tokens[i], tokens[i + 1])] < usize::MAX
}

/// The merge at `i` comes first: no other has a lower number, nor the same number
/// further left.
pub open spec fn comes_first(
    merges: Map<(Seq<char>, Seq<char>), usize>,
    tokens: Seq<Seq<char>>,
    i: int,
) -> bool {
    &&& mergeable(merges, tokens, i)
    &&& forall|j: int| #[trigger]
        mergeable(merges, tokens, j) ==> {
            let p = merges[(tokens[i], tokens[i + 1])];
            let q = merges[(tokens[j], tokens[j + 1])];
            p < q || (p == q && i <= j)
        }
}

/// Tokens `i` and `i + 1` as one.
pub open spec fn joined(tokens: Seq<Seq<char>>, i: int) -> Seq<Seq<char>> {
    tokens.take(i) + seq![tokens[i] + tokens[i + 1]] + tokens.skip(i + 2)
}

/// The tokens after all merges: as long as there is one, the one that comes first
/// is carried out.
pub open spec fn merged(
    merges: Map<(Seq<char>, Seq<char>), usize>,
    tokens: Seq<Seq<char>>,
) -> Seq<Seq<char>>
    decreases tokens.len(),
{
    if exists|i: int| comes_first(merges, tokens, i) {
        let i = choose|i: int| comes_first(merges, tokens, i);
        merged(merges, joined(tokens, i))
    } else {
        tokens
    }
}

/// The id of a token: its position in the vocabulary, else that of the unknown
/// token, else zero.
pub open spec fn token_id(vocab: Map<Seq<char>, usize>, token: Seq<char>) -> usize {
    if vocab.contains_key(token) {
        vocab[token]
    } else if vocab.contains_key("<unk>"@) {
        vocab["<unk>"@]
    } else {
        0
    }
}

/// The ids of a piece.
pub open spec fn piece_ids(
    vocab: Map<Seq<char>, usize>,
    merges: Map<(Seq<char>, Seq<char>), usize>,
    piece: Seq<char>,
) -> Seq<usize> {
    merged(merges, byte_tokens(vocab, piece)).map_values(|t: Seq<char>| token_id(vocab, t))
}

fn find_merge(merges: &MergeTable, tokens: &Vec<String>) -> (r: Option<usize>)
    ensures
        match r {
            Some(i) => comes_first(merges@, texts(tokens@), i as int),
            None => forall|i: int| !#[trigger] mergeable(merges@, texts(tokens@), i),
        },
{
    let ghost t = texts(tokens@);
    let mut best: Option<usize> = None;
    let mut best_priority: usize = usize::MAX;
    if tokens.len() < 2 {
        return None;
    }
    let mut i: usize = 0;
    while i < tokens.len() - 1
        invariant
            tokens@.len() >= 2,
            t == texts(tokens@),
            i <= tokens@.len() - 1,
            match best {
                Some(p) => {
                    &&& p < i
                    &&& mergeable(merges@, t, p as int)
                    &&& best_priority == merges@[(t[p as int], t[p + 1])]
                    &&& forall|j: int|
                        j < i && #[trigger] mergeable(merges@, t, j) ==> {
                            let q = merges@[(t[j], t[j + 1])];
                            best_priority < q || (best_priority == q && p <= j)
                        }
                },
                None => {
                    &&& best_priority == usize::MAX
                    &&& forall|j: int| j < i ==> !#[trigger] mergeable(merges@, t, j)
                },
            },
        decreases tokens@.len() - i,
    {
        match merges.get(tokens[i].as_str(), tokens[i + 1].as_str()) {
            Some(priority) => {
                if priority < best_priority {
                    best_priority = priority;
                    best = Some(i);
                    assert(mergeable(merges@, t, i as int));
                }
            },
            None => {},
        }
        i += 1;
    }
    best
}

fn merge_tokens(merges: &MergeTable, start: Vec<String>) -> (r: Vec<String>)
    ensures
        texts(r@) == merged(merges@, texts(start@)),
{
    let mut tokens = start;
    loop
        invariant
            merged(merges@, texts(tokens@)) == merged(merges@, texts(start@)),
        ensures
            texts(tokens@) == merged(merges@, texts(start@)),
        decreases tokens@.len(),
    {
        let ghost t = texts(tokens@);
        match find_merge(merges, &tokens) {
            Some(pos) => {
                assert(pos + 1 < tokens.len());
                let mut one = tokens[pos].clone();
                one.append(tokens[pos + 1].as_str());
                proof {
                    let i = choose|i: int| comes_first(merges@, t, i);
                    assert(comes_first(merges@, t, pos as int));
                    assert(mergeable(merges@, t, pos as int));
                    assert(mergeable(merges@, t, i));
                    assert(i == pos);
                }
                tokens.set(pos, one);
                let _ = tokens.remove(pos + 1);
                assert(texts(tokens@) =~= joined(t, pos as int));
            },
            None => {
                assert forall|i: int| !comes_first(merges@, t, i) by {
                    assert(!mergeable(merges@, t, i));
                }
                break ;
            },
        }
    }
    tokens
}

impl Tokenizer {
    /// The pieces that a text is cut into.
    pub open spec fn cut(&self, text: Seq<char>) -> Seq<Seq<char>> {
        if self.pre_type@ == "default"@ || self.pre_type@.len() == 0 {
            words(text)
        } else {
            pieces(text)
        }
    }

    /// The ids of a text: those of its pieces, one piece after the other.
    pub open spec fn encoded(&self, text: Seq<char>) -> Seq<usize> {
        self.cut(text).map_values(
            |piece: Seq<char>| piece_ids(self.vocab_map@, self.merges@, piece),
        ).flatten()
    }

    /// Encode text to token IDs
    pub fn encode(&self, text: &str) -> (r: Vec<usize>)
        ensures
            r@ == self.encoded(text@),
    {
        let pre_tokens = self.pre_tokenize(text);
        let ghost f = |piece: Seq<char>| piece_ids(self.vocab_map@, self.merges@, piece);
        let ghost all = self.cut(text@);
        let mut all_ids: Vec<usize> = Vec::new();
        let mut i: usize = 0;
        assert(all.take(0).map_values(f).flatten() =~= Seq::empty());
        while i < pre_tokens.len()
            invariant
                i <= pre_tokens@.len(),
                texts(pre_tokens@) == all,
                f == (|piece: Seq<char>| piece_ids(self.vocab_map@, self.merges@, piece)),
                all_ids@ == all.take(i as int).map_values(f).flatten(),
            decreases pre_tokens@.len() - i,
        {
            let piece_ids = self.bpe_encode_piece(pre_tokens[i].as_str());
            proof {
                let s = all.take(i as int).map_values(f);
                assert(all.take(i + 1).map_values(f) =~= s.push(f(all[i as int])));
                s.lemma_flatten_push(f(all[i as int]));
            }
            all_ids.extend_from_slice(piece_ids.as_slice());
            assert(all_ids@ =~= all.take(i + 1).map_values(f).flatten());
            i += 1;
        }
        assert(all.take(i as int) =~= all);
        all_ids
    }

    /// Pre-tokenize: split input into pieces based on the pre-tokenizer type
    fn pre_tokenize(&self, text: &str) -> (r: Vec<String>)
        ensures
            texts(r@) == self.cut(text@),
    {
        if text_eq(self.pre_type.as_str(), "default") || text_eq(self.pre_type.as_str(), "") {
            proof {
                reveal_strlit("");
            }
            split_words(text)
        } else {
            proof {
                reveal_strlit("");
                assert(self.pre_type@.len() == 0 ==> self.pre_type@ =~= ""@);
            }
            split_pieces(text)
        }
    }

    /// BPE encode a single pre-tokenized piece
    fn bpe_encode_piece(&self, piece: &str) -> (r: Vec<usize>)
        ensures
            r@ == piece_ids(self.vocab_map@, self.merges@, piece@),
    {
        let ghost vocab = self.vocab_map@;
        let bytes = piece.as_bytes();
        let mut start: Vec<String> = Vec::new();
        let mut i: usize = 0;
        while i < bytes.len()
            invariant
                i <= bytes@.len(),
                bytes@ == encode_utf8(piece@),
                vocab == self.vocab_map@,
                start@.len() == i,
                forall|j: int| 0 <= j < i ==> #[trigger] start@[j]@ == byte_token(vocab, bytes@[j]),
            decreases bytes@.len() - i,
        {
            start.push(self.byte_to_token(bytes[i]));
            i += 1;
        }
        assert(texts(start@) =~= byte_tokens(vocab, piece@));
        let tokens = merge_tokens(&self.merges, start);
        let mut ids: Vec<usize> = Vec::new();
        let mut k: usize = 0;
        while k < tokens.len()
            invariant
                k <= tokens@.len(),
                vocab == self.vocab_map@,
                ids@.len() == k,
                forall|j: int| 0 <= j < k ==> #[trigger] ids@[j] == token_id(vocab, tokens@[j]@),
            decreases tokens@.len() - k,
        {
            ids.push(self.token_to_id(tokens[k].as_str()));
            k += 1;
        }
        assert(ids@ =~= piece_ids(vocab, self.merges@, piece@));
        ids
    }

    fn byte_to_token(&self, b: u8) -> (r: String)
        ensures
            r@ == byte_token(self.vocab_map@, b),
    {
        let mut raw = String::new();
        raw.push(b as char);
        assert(raw@ =~= seq![b as char]);
        if self.vocab_map.contains_key(raw.as_str()) {
            return raw;
        }
        let mut other = String::new();
        other.push(scalar(256 + b as u32));
        assert(other@ =~= seq![(256 + b) as char]);
        other
    }

    /// Look up token ID from token text
    fn token_to_id(&self, token: &str) -> (r: usize)
        ensures
            r == token_id(self.vocab_map@, token@),
    {
        match self.vocab_map.get(token) {
            Some(id) => *id,
            None => match self.vocab_map.get("<unk>") {
                Some(id) => *id,
                None => 0,
            },
        }
    }
}

/// What a token contributes to the text: nothing where it is a control token or
/// there is no such token.
pub open spec fn shown(vocab: Seq<EntryView>, id: usize) -> Seq<char> {
    if id < vocab.len() && vocab[id as int].token_type != TokenType::Control {
        vocab[id as int].text
    } else {
        Seq::empty()
    }
}

/// The byte that a character stands for, if any.
pub open spec fn to_byte() -> spec_fn(char) -> Option<u8> {
    |c: char| char_byte(c)
}

/// The bytes that a token stands for; characters that stand for none are passed
/// over.
pub open spec fn token_bytes(vocab: Seq<EntryView>, id: usize) -> Seq<u8> {
    shown(vocab, id).filter_map(to_byte())
}

/// The bytes that tokens stand for, one after the other.
pub open spec fn all_bytes(vocab: Seq<EntryView>, ids: Seq<usize>) -> Seq<u8> {
    ids.map_values(|id: usize| token_bytes(vocab, id)).flatten()
}

fn append_bytes(table: &Vec<Option<u8>>, text: &str, out: &mut Vec<u8>)
    requires
        table@.len() == 324,
        forall|c: char| (c as u32) < 324 ==> table@[#[trigger] (c as u32) as int] == char_byte(c),
        forall|c: char| (c as u32) >= 324 ==> #[trigger] char_byte(c) is None,
    ensures
        final(out)@ == old(out)@ + text@.filter_map(to_byte()),
{
    let chars = chars_of(text);
    let ghost start = out@;
    let mut i: usize = 0;
    assert(start + chars@.take(0).filter_map(to_byte()) =~= start);
    while i < chars.len()
        invariant
            i <= chars@.len(),
            chars@ == text@,
            table@.len() == 324,
            forall|c: char|
                (c as u32) < 324 ==> table@[#[trigger] (c as u32) as int] == char_byte(c),
            forall|c: char| (c as u32) >= 324 ==> #[trigger] char_byte(c) is None,
            out@ == start + chars@.take(i as int).filter_map(to_byte()),
        decreases chars@.len() - i,
    {
        let ghost s = chars@.take(i + 1);
        assert(s.drop_last() =~= chars@.take(i as int));
        match lookup(table, chars[i]) {
            Some(b) => {
                out.push(b);
            },
            None => {},
        }
        assert(out@ =~= start + s.filter_map(to_byte()));
        i += 1;
    }
    assert(chars@.take(i as int) =~= text@);
}

impl Tokenizer {
    /// What the entries of the vocabulary say.
    pub open spec fn entries(&self) -> Seq<EntryView> {
        entry_views(self.vocab@)
    }

    /// Decode token IDs back to text (handles byte-level BPE)
    pub fn decode(&self, ids: &[usize]) -> (r: String)
        ensures
            r@ == lossy(all_bytes(self.entries(), ids@)),
    {
        let decoder = byte_decoder();
        let ghost f = |id: usize| token_bytes(self.entries(), id);
        let mut bytes: Vec<u8> = Vec::new();
        let mut i: usize = 0;
        assert(ids@.take(0).map_values(f).flatten() =~= Seq::empty());
        while i < ids.len()
            invariant
                i <= ids@.len(),
                decoder@.len() == 324,
                forall|c: char|
                    (c as u32) < 324 ==> decoder@[#[trigger] (c as u32) as int] == char_byte(c),
                forall|c: char| (c as u32) >= 324 ==> #[trigger] char_byte(c) is None,
                f == (|id: usize| token_bytes(self.entries(), id)),
                bytes@ == ids@.take(i as int).map_values(f).flatten(),
            decreases ids@.len() - i,
        {
            proof {
                let s = ids@.take(i as int).map_values(f);
                assert(ids@.take(i + 1).map_values(f) =~= s.push(f(ids@[i as int])));
                s.lemma_flatten_push(f(ids@[i as int]));
            }
            let id: usize = ids[i];
            self.append_token(&decoder, id, &mut bytes);
            i += 1;
        }
        assert(ids@.take(i as int) =~= ids@);
        decode_lossy(bytes.as_slice())
    }

    fn append_token(&self, decoder: &Vec<Option<u8>>, id: usize, bytes: &mut Vec<u8>)
        requires
            decoder@.len() == 324,
            forall|c: char|
                (c as u32) < 324 ==> decoder@[#[trigger] (c as u32) as int] == char_byte(c),
            forall|c: char| (c as u32) >= 324 ==> #[trigger] char_byte(c) is None,
        ensures
            final(bytes)@ == old(bytes)@ + token_bytes(self.entries(), id),
    {
        if id >= self.vocab.len() {
            assert(old(bytes)@ + token_bytes(self.entries(), id) =~= old(bytes)@);
            return;
        }
        match self.vocab[id].token_type {
            TokenType::Control => {
                assert(old(bytes)@ + token_bytes(self.entries(), id) =~= old(bytes)@);
            },
            _ => append_bytes(decoder, self.vocab[id].text.as_str(), bytes),
        }
    }

    /// Decode a single token ID to raw bytes (for streaming)
    pub fn decode_token_bytes(&self, id: usize) -> (r: Vec<u8>)
        ensures
            r@ == token_bytes(self.entries(), id),
    {
        let decoder = byte_decoder();
        let mut bytes: Vec<u8> = Vec::new();
        self.append_token(&decoder, id, &mut bytes);
        assert(Seq::<u8>::empty() + token_bytes(self.entries(), id) =~= token_bytes(
            self.entries(),
            id,
        ));
        bytes
    }

    /// Decode a single token ID to text (for streaming)
    pub fn decode_token(&self, id: usize) -> (r: Option<String>)
        ensures
            r is Some,
            r->0@ == lossy(token_bytes(self.entries(), id)),
    {
        let ids = [id];
        proof {
            let f = |id: usize| token_bytes(self.entries(), id);
            assert(ids@.map_values(f) =~= seq![token_bytes(self.entries(), id)]);
            seq![token_bytes(self.entries(), id)].lemma_flatten_singleton();
        }
        Some(self.decode(&ids))
    }
}

/// A merge puts two neighbours together and changes nothing else.
proof fn lemma_joined(tokens: Seq<Seq<char>>, i: int)
    requires
        0 <= i < tokens.len() - 1,
    ensures
        joined(tokens, i).flatten() == tokens.flatten(),
{
    let a = tokens.take(i);
    let b = tokens.skip(i + 2);
    let x = tokens[i];
    let y = tokens[i + 1];
    vstd::seq_lib::lemma_flatten_concat(a + seq![x + y], b);
    vstd::seq_lib::lemma_flatten_concat(a, seq![x + y]);
    vstd::seq_lib::lemma_flatten_concat(a + seq![x, y], b);
    vstd::seq_lib::lemma_flatten_concat(a, seq![x, y]);
    seq![x + y].lemma_flatten_singleton();
    assert(seq![x, y] =~= seq![x].push(y));
    seq![x].lemma_flatten_push(y);
    seq![x].lemma_flatten_singleton();
    assert(tokens =~= a + seq![x, y] + b);
}

/// Merging neither loses nor adds a character: put together, the tokens spell
/// the same text before and after.
pub proof fn law_merging_keeps_the_text(
    merges: Map<(Seq<char>, Seq<char>), usize>,
    tokens: Seq<Seq<char>>,
)
    ensures
        merged(merges, tokens).flatten() == tokens.flatten(),
    decreases tokens.len(),
{
    if exists|i: int| comes_first(merges, tokens, i) {
        let i = choose|i: int| comes_first(merges, tokens, i);
        lemma_joined(tokens, i);
        law_merging_keeps_the_text(merges, joined(tokens, i));
    }
}

/// After merging no rule applies any more.
pub proof fn law_merging_is_complete(
    merges: Map<(Seq<char>, Seq<char>), usize>,
    tokens: Seq<Seq<char>>,
    i: int,
)
    ensures
        !mergeable(merges, merged(merges, tokens), i),
    decreases tokens.len(),
{
    if exists|i: int| comes_first(merges, tokens, i) {
        let k = choose|i: int| comes_first(merges, tokens, i);
        law_merging_is_complete(merges, joined(tokens, k), i);
    } else if mergeable(merges, tokens, i) {
        let k = lemma_some_merge_comes_first(merges, tokens, i, tokens.len() as int);
    }
}

pub(crate) proof fn lemma_some_merge_comes_first(
    merges: Map<(Seq<char>, Seq<char>), usize>,
    tokens: Seq<Seq<char>>,
    i: int,
    end: int,
) -> (k: int)
    requires
        mergeable(merges, tokens, i),
        i < end,
    ensures
        mergeable(merges, tokens, k),
        k < end,
        forall|j: int|
            j < end && #[trigger] mergeable(merges, tokens, j) ==> {
                let p = merges[(tokens[k], tokens[k + 1])];
                let q = merges[(tokens[j], tokens[j + 1])];
                p < q || (p == q && k <= j)
            },
        end >= tokens.len() ==> comes_first(merges, tokens, k),
    decreases end,
{
    let last = end - 1;
    if exists|m: int| m < last && #[trigger] mergeable(merges, tokens, m) {
        let m = choose|m: int| m < last && #[trigger] mergeable(merges, tokens, m);
        let k = lemma_some_merge_comes_first(merges, tokens, m, last);
        if mergeable(merges, tokens, last) && merges[(tokens[last], tokens[last + 1])] < merges[(
            tokens[k],
            tokens[k + 1],
        )] {
            last
        } else {
            k
        }
    } else {
        i
    }
}

proof fn lemma_filter_map_concat(a: Seq<char>, b: Seq<char>)
    ensures
        (a + b).filter_map(to_byte()) == a.filter_map(to_byte()) + b.filter_map(to_byte()),
    decreases b.len(),
{
    if b.len() == 0 {
        assert(a + b =~= a);
    } else {
        assert((a + b).drop_last() =~= a + b.drop_last());
        lemma_filter_map_concat(a, b.drop_last());
    }
    assert((a + b).filter_map(to_byte()) =~= a.filter_map(to_byte()) + b.filter_map(to_byte()));
}

proof fn lemma_filter_map_flatten(v: Seq<Seq<char>>)
    ensures
        v.flatten().filter_map(to_byte()) == v.map_values(
            |t: Seq<char>| t.filter_map(to_byte()),
        ).flatten(),
    decreases v.len(),
{
    let f = |t: Seq<char>| t.filter_map(to_byte());
    if v.len() > 0 {
        lemma_filter_map_flatten(v.drop_first());
        lemma_filter_map_concat(v.first(), v.drop_first().flatten());
        assert(v.map_values(f).drop_first() =~= v.drop_first().map_values(f));
    } else {
        assert(v.map_values(f) =~= Seq::empty());
    }
}

/// Streaming gives the same bytes as decoding at once: the bytes of a list of
/// tokens are those of its first part followed by those of the rest.
pub proof fn law_bytes_can_be_streamed(vocab: Seq<EntryView>, a: Seq<usize>, b: Seq<usize>)
    ensures
        all_bytes(vocab, a + b) == all_bytes(vocab, a) + all_bytes(vocab, b),
{
    let f = |id: usize| token_bytes(vocab, id);
    assert((a + b).map_values(f) =~= a.map_values(f) + b.map_values(f));
    vstd::seq_lib::lemma_flatten_concat(a.map_values(f), b.map_values(f));
}

/// The position of a text of the vocabulary holds that text.
pub proof fn law_positions_hold_their_text(vocab: Seq<EntryView>, text: Seq<char>)
    requires
        positions(vocab).contains_key(text),
        vocab.len() <= usize::MAX,
    ensures
        positions(vocab)[text] < vocab.len(),
        vocab[positions(vocab)[text] as int].text == text,
    decreases vocab.len(),
{
    if vocab.last().text != text {
        law_positions_hold_their_text(vocab.drop_last(), text);
    }
}

/// Every text of the vocabulary has a position.
pub proof fn law_every_text_has_a_position(vocab: Seq<EntryView>, i: int)
    requires
        0 <= i < vocab.len(),
    ensures
        positions(vocab).contains_key(vocab[i].text),
    decreases vocab.len(),
{
    if i < vocab.len() - 1 {
        law_every_text_has_a_position(vocab.drop_last(), i);
    }
}

/// A byte starts as the character that stands for it in the byte table.
pub open spec fn byte_reads_back(vocab: Map<Seq<char>, usize>, b: u8) -> bool {
    byte_token(vocab, b) == seq![byte_char(b)]
}

impl Tokenizer {
    /// The vocabulary covers a piece: each of its bytes starts as the character
    /// that stands for it, and each token that it is merged into is in the
    /// vocabulary and is no control token.
    pub open spec fn covers(&self, piece: Seq<char>) -> bool {
        &&& forall|i: int|
            0 <= i < encode_utf8(piece).len() ==> byte_reads_back(
                self.vocab_map@,
                #[trigger] encode_utf8(piece)[i],
            )
        &&& forall|k: int|
            #![trigger merged(self.merges@, byte_tokens(self.vocab_map@, piece))[k]]
            0 <= k < merged(self.merges@, byte_tokens(self.vocab_map@, piece)).len() ==> {
                let t = merged(self.merges@, byte_tokens(self.vocab_map@, piece))[k];
                &&& self.vocab_map@.contains_key(t)
                &&& self.entries()[self.vocab_map@[t] as int].token_type != TokenType::Control
            }
    }
}

proof fn lemma_bytes_read_back(vocab: Map<Seq<char>, usize>, bytes: Seq<u8>)
    requires
        forall|i: int| 0 <= i < bytes.len() ==> byte_reads_back(vocab, #[trigger] bytes[i]),
    ensures
        bytes.map_values(|b: u8| byte_token(vocab, b)).flatten().filter_map(to_byte()) == bytes,
    decreases bytes.len(),
{
    let f = |b: u8| byte_token(vocab, b);
    let v = bytes.map_values(f);
    if bytes.len() == 0 {
        assert(v =~= Seq::empty());
        assert(v.flatten().filter_map(to_byte()) =~= bytes);
    } else {
        let rest = bytes.drop_first();
        assert forall|i: int| 0 <= i < rest.len() implies byte_reads_back(
            vocab,
            #[trigger] rest[i],
        ) by {
            assert(rest[i] == bytes[i + 1]);
        }
        lemma_bytes_read_back(vocab, rest);
        assert(v.drop_first() =~= rest.map_values(f));
        let c = byte_char(bytes[0]);
        assert(byte_reads_back(vocab, bytes[0]));
        crate::byte_table::law_byte_char_reads_back(bytes[0]);
        let one = seq![c];
        lemma_filter_map_concat(one, rest.map_values(f).flatten());
        assert(one.drop_last() =~= Seq::empty());
        assert(one.drop_last().filter_map(to_byte()) =~= Seq::empty());
        assert(one.last() == c);
        assert(one.filter_map(to_byte()) =~= seq![bytes[0]]);
        assert(seq![bytes[0]] + rest =~= bytes);
    }
}

proof fn lemma_piece_reads_back(tok: &Tokenizer, piece: Seq<char>)
    requires
        tok.wf(),
        tok.vocab@.len() <= usize::MAX,
        tok.covers(piece),
    ensures
        all_bytes(tok.entries(), piece_ids(tok.vocab_map@, tok.merges@, piece)) == encode_utf8(
            piece,
        ),
{
    let vocab = tok.vocab_map@;
    let entries = tok.entries();
    let start = byte_tokens(vocab, piece);
    let tokens = merged(tok.merges@, start);
    let ids = piece_ids(vocab, tok.merges@, piece);
    let f = |id: usize| token_bytes(entries, id);
    let g = |t: Seq<char>| t.filter_map(to_byte());
    assert forall|k: int| 0 <= k < tokens.len() implies #[trigger] ids.map_values(f)[k]
        == tokens.map_values(g)[k] by {
        let t = tokens[k];
        law_positions_hold_their_text(entries, t);
        assert(shown(entries, ids[k]) == t);
    }
    assert(ids.map_values(f) =~= tokens.map_values(g));
    lemma_filter_map_flatten(tokens);
    law_merging_keeps_the_text(tok.merges@, start);
    lemma_bytes_read_back(vocab, encode_utf8(piece));
}

proof fn lemma_encode_concat(a: Seq<char>, b: Seq<char>)
    ensures
        encode_utf8(a + b) == encode_utf8(a) + encode_utf8(b),
    decreases a.len(),
{
    if a.len() == 0 {
        assert(a + b =~= b);
        assert(encode_utf8(a) + encode_utf8(b) =~= encode_utf8(b));
    } else {
        lemma_encode_concat(a.drop_first(), b);
        assert((a + b).drop_first() =~= a.drop_first() + b);
        assert((a + b)[0] == a[0]);
        assert(encode_utf8(a + b) =~= encode_utf8(a) + encode_utf8(b));
    }
}

proof fn lemma_pieces_read_back(tok: &Tokenizer, v: Seq<Seq<char>>)
    requires
        tok.wf(),
        tok.vocab@.len() <= usize::MAX,
        forall|i: int| 0 <= i < v.len() ==> tok.covers(#[trigger] v[i]),
    ensures
        all_bytes(
            tok.entries(),
            v.map_values(
                |piece: Seq<char>| piece_ids(tok.vocab_map@, tok.merges@, piece),
            ).flatten(),
        ) == encode_utf8(v.flatten()),
    decreases v.len(),
{
    let f = |piece: Seq<char>| piece_ids(tok.vocab_map@, tok.merges@, piece);
    let w = v.map_values(f);
    if v.len() == 0 {
        assert(w =~= Seq::empty());
        assert(w.flatten().map_values(|id: usize| token_bytes(tok.entries(), id)) =~= Seq::empty());
        assert(encode_utf8(v.flatten()) =~= Seq::empty());
    } else {
        let rest = v.drop_first();
        assert forall|i: int| 0 <= i < rest.len() implies tok.covers(#[trigger] rest[i]) by {
            assert(rest[i] == v[i + 1]);
        }
        lemma_pieces_read_back(tok, rest);
        lemma_piece_reads_back(tok, v[0]);
        assert(w.drop_first() =~= rest.map_values(f));
        law_bytes_can_be_streamed(tok.entries(), f(v[0]), rest.map_values(f).flatten());
        lemma_encode_concat(v[0], rest.flatten());
    }
}

/// Decoding undoes encoding, but for white space: where the vocabulary covers
/// the pieces of a text, the ids of the text decode to the pieces put together.
/// Those are the text with every run of ASCII white space as one blank or,
/// with the default pre-tokenizer, the text without its white space.
pub proof fn law_decoding_undoes_encoding(tok: Tokenizer, text: Seq<char>)
    requires
        tok.wf(),
        tok.vocab@.len() <= usize::MAX,
        forall|i: int| 0 <= i < tok.cut(text).len() ==> tok.covers(#[trigger] tok.cut(text)[i]),
    ensures
        lossy(all_bytes(tok.entries(), tok.encoded(text))) == tok.cut(text).flatten(),
        tok.cut(text).flatten() == (if tok.pre_type@ == "default"@ || tok.pre_type@.len() == 0 {
            without_space(text)
        } else {
            collapsed(text)
        }),
{
    let t = tok.cut(text).flatten();
    lemma_pieces_read_back(&tok, tok.cut(text));
    vstd::utf8::encode_utf8_valid_utf8(t);
    vstd::utf8::encode_utf8_decode_utf8(t);
    law_decoders_agree(encode_utf8(t));
    law_words_make_up_the_text(text);
    law_pieces_make_up_the_text(text);
}

} // verus!
