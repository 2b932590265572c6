//! The vocabulary and the merge rules at work: how the arrays of a file decide which
//! tokens a piece of text becomes, and what a token says.

use crate::byte_table::{byte_char, char_byte};
use crate::gguf::MetadataView;
use crate::pieces::{
    is_ascii_blank, is_letter_or_digit, law_blank_goes_with_what_follows,
    law_letters_and_digits_stay_together, law_other_characters_stand_alone,
    law_words_go_from_space_to_space, pieces, words,
};
use crate::text::is_space;
use crate::tokenizer::{
    before_blank, byte_token, byte_tokens, comes_first, joined, lemma_before_blank,
    lemma_some_merge_comes_first, lemma_spaced, mergeable, merged, piece_ids, positions,
    rule_of, rules_of, shown, spaced, special_id, to_byte, token_bytes, token_id, vocab_of,
    EntryView, Tokenizer,
};
use vstd::prelude::*;
use vstd::utf8::encode_utf8;

verus! {

/// A rule puts two texts together: it stands in the array as the two with a blank between
/// them, and the first has no blank.
pub open spec fn is_rule(rule: MetadataView, a: Seq<char>, b: Seq<char>) -> bool {
    rule == MetadataView::String(a + seq![' '] + b) && !a.contains(' ')
}

proof fn lemma_rule(s: Seq<char>, a: Seq<char>, b: Seq<char>)
    ensures
        rule_of(s) == Some((a, b)) <==> is_rule(MetadataView::String(s), a, b),
{
    if is_rule(MetadataView::String(s), a, b) {
        lemma_spaced(a, b);
        assert(s == spaced(a, b));
    }
    if rule_of(s) == Some((a, b)) {
        lemma_before_blank(s);
        let n = before_blank(s) as int;
        assert(s =~= s.take(n) + seq![' '] + s.skip(n + 1));
    }
}

/// A rule of the table stands in the array at the position that is its priority, and
/// nowhere behind it.
pub proof fn law_priorities_are_positions(rules: Seq<MetadataView>, a: Seq<char>, b: Seq<char>)
    requires
        rules.len() <= usize::MAX,
    ensures
        rules_of(rules).contains_key((a, b)) ==> {
            &&& rules_of(rules)[(a, b)] < rules.len()
            &&& is_rule(rules[rules_of(rules)[(a, b)] as int], a, b)
        },
        forall|k: int|
            0 <= k < rules.len() && is_rule(#[trigger] rules[k], a, b) ==> rules_of(
                rules,
            ).contains_key((a, b)) && k <= rules_of(rules)[(a, b)],
    decreases rules.len(),
{
    if rules.len() > 0 {
        law_priorities_are_positions(rules.drop_last(), a, b);
        let rest = rules.drop_last();
        match rules.last() {
            MetadataView::String(s) => {
                lemma_rule(s, a, b);
            },
            _ => {},
        }
        if rules_of(rules).contains_key((a, b)) && rules_of(rules)[(a, b)] < rules.len() - 1 {
            let p = rules_of(rules)[(a, b)] as int;
            assert(rest[p] == rules[p]);
        }
        assert forall|k: int|
            0 <= k < rules.len() && is_rule(#[trigger] rules[k], a, b) implies rules_of(
            rules,
        ).contains_key((a, b)) && k <= rules_of(rules)[(a, b)] by {
            if k < rules.len() - 1 {
                assert(is_rule(rest[k], a, b));
            }
        }
    }
}

/// Two neighbours.
pub open spec fn neighbours(tokens: Seq<Seq<char>>, i: int) -> (Seq<char>, Seq<char>) {
    (tokens[i], tokens[i + 1])
}

proof fn lemma_no_key_is_left(merges: Map<(Seq<char>, Seq<char>), usize>, tokens: Seq<Seq<char>>)
    requires
        forall|k: (Seq<char>, Seq<char>)|
            #[trigger] merges.contains_key(k) ==> merges[k] < usize::MAX,
    ensures
        forall|i: int|
            0 <= i < merged(merges, tokens).len() - 1 ==> !merges.contains_key(
                #[trigger] neighbours(merged(merges, tokens), i),
            ),
    decreases tokens.len(),
{
    if exists|i: int| comes_first(merges, tokens, i) {
        let k = choose|i: int| comes_first(merges, tokens, i);
        assert(mergeable(merges, tokens, k));
        lemma_no_key_is_left(merges, joined(tokens, k));
        assert(merged(merges, tokens) == merged(merges, joined(tokens, k)));
    } else {
        assert(merged(merges, tokens) == tokens);
        assert forall|i: int| 0 <= i < tokens.len() - 1 implies !merges.contains_key(
            #[trigger] neighbours(tokens, i),
        ) by {
            if merges.contains_key((tokens[i], tokens[i + 1])) {
                assert(merges[(tokens[i], tokens[i + 1])] < usize::MAX);
                assert(mergeable(merges, tokens, i));
                let k = lemma_some_merge_comes_first(merges, tokens, i, tokens.len() as int);
                assert(comes_first(merges, tokens, k));
            }
        }
    }
}

/// After merging no two neighbours are a key of the table, and so no two stand in the
/// array of rules with a blank between them.
pub proof fn law_no_rule_is_left(rules: Seq<MetadataView>, tokens: Seq<Seq<char>>, i: int)
    requires
        rules.len() <= usize::MAX,
        0 <= i < merged(rules_of(rules), tokens).len() - 1,
    ensures
        ({
            let r = merged(rules_of(rules), tokens);
            &&& !rules_of(rules).contains_key((r[i], r[i + 1]))
            &&& forall|k: int|
                0 <= k < rules.len() ==> !is_rule(#[trigger] rules[k], r[i], r[i + 1])
        }),
{
    let merges = rules_of(rules);
    assert forall|k: (Seq<char>, Seq<char>)| #[trigger] merges.contains_key(k) implies merges[k]
        < usize::MAX by {
        law_priorities_are_positions(rules, k.0, k.1);
        assert(k == (k.0, k.1));
    }
    lemma_no_key_is_left(merges, tokens);
    let r = merged(merges, tokens);
    assert(!merges.contains_key(neighbours(r, i)));
    law_priorities_are_positions(rules, r[i], r[i + 1]);
}

/// Merging goes by priority: as long as some neighbours are a key of the table, those of
/// the least priority, and among equals the leftmost, are put together, and merging goes
/// on with the result.
pub proof fn law_least_priority_is_merged_first(
    merges: Map<(Seq<char>, Seq<char>), usize>,
    tokens: Seq<Seq<char>>,
    i: int,
)
    requires
        forall|k: (Seq<char>, Seq<char>)|
            #[trigger] merges.contains_key(k) ==> merges[k] < usize::MAX,
        0 <= i < tokens.len() - 1,
        merges.contains_key((tokens[i], tokens[i + 1])),
        forall|j: int|
            0 <= j < tokens.len() - 1 && merges.contains_key(#[trigger] neighbours(tokens, j))
                ==> {
                let p = merges[(tokens[i], tokens[i + 1])];
                let q = merges[(tokens[j], tokens[j + 1])];
                p < q || (p == q && i <= j)
            },
    ensures
        merged(merges, tokens) == merged(
            merges,
            tokens.take(i).push(tokens[i] + tokens[i + 1]) + tokens.skip(i + 2),
        ),
{
    assert(mergeable(merges, tokens, i));
    assert forall|j: int| #[trigger] mergeable(merges, tokens, j) implies {
        let p = merges[(tokens[i], tokens[i + 1])];
        let q = merges[(tokens[j], tokens[j + 1])];
        p < q || (p == q && i <= j)
    } by {
        assert(merges.contains_key(neighbours(tokens, j)));
    }
    assert(comes_first(merges, tokens, i));
    let k = choose|k: int| comes_first(merges, tokens, k);
    assert(mergeable(merges, tokens, k));
    assert(k == i);
    assert(joined(tokens, i) =~= tokens.take(i).push(tokens[i] + tokens[i + 1]) + tokens.skip(
        i + 2,
    ));
}

/// Without a rule for any neighbours nothing is merged.
pub proof fn law_without_rules_nothing_is_merged(
    merges: Map<(Seq<char>, Seq<char>), usize>,
    tokens: Seq<Seq<char>>,
)
    requires
        forall|j: int|
            0 <= j < tokens.len() - 1 ==> !merges.contains_key(
                #[trigger] neighbours(tokens, j),
            ),
    ensures
        merged(merges, tokens) == tokens,
{
    if exists|i: int| comes_first(merges, tokens, i) {
        let i = choose|i: int| comes_first(merges, tokens, i);
        assert(mergeable(merges, tokens, i));
        assert(merges.contains_key(neighbours(tokens, i)));
    }
}

/// The character that a byte of a piece starts as: the one of its own number where the
/// vocabulary has it, else the one 256 further on.
pub open spec fn start_char(vocab: Map<Seq<char>, usize>, b: u8) -> char {
    if vocab.contains_key(seq![b as char]) {
        b as char
    } else {
        (256 + b) as char
    }
}

/// The ids of a piece name texts that together spell the characters that its bytes start
/// as, and none of whose neighbours stand in the array of rules. An id is the position of
/// its text; a text that has none gets the position of the unknown token or, without
/// one, zero.
pub proof fn law_ids_name_unmergeable_texts(
    vocab: Map<Seq<char>, usize>,
    rules: Seq<MetadataView>,
    piece: Seq<char>,
)
    requires
        rules.len() <= usize::MAX,
    ensures
        exists|r: Seq<Seq<char>>|
            {
                &&& #[trigger] r.flatten() == encode_utf8(piece).map_values(
                    |b: u8| start_char(vocab, b),
                )
                &&& piece_ids(vocab, rules_of(rules), piece).len() == r.len()
                &&& forall|i: int, k: int|
                    0 <= i < r.len() - 1 && 0 <= k < rules.len() ==> !is_rule(
                        #[trigger] rules[k],
                        #[trigger] r[i],
                        r[i + 1],
                    )
                &&& forall|i: int|
                    0 <= i < r.len() ==> piece_ids(vocab, rules_of(rules), piece)[i] == (
                    if vocab.contains_key(#[trigger] r[i]) {
                        vocab[r[i]]
                    } else if vocab.contains_key("<unk>"@) {
                        vocab["<unk>"@]
                    } else {
                        0
                    })
            },
{
    let start = byte_tokens(vocab, piece);
    let r = merged(rules_of(rules), start);
    crate::tokenizer::law_merging_keeps_the_text(rules_of(rules), start);
    lemma_start(vocab, encode_utf8(piece));
    assert forall|i: int, k: int| 0 <= i < r.len() - 1 && 0 <= k < rules.len() implies !is_rule(
        #[trigger] rules[k],
        #[trigger] r[i],
        r[i + 1],
    ) by {
        law_no_rule_is_left(rules, start, i);
    }
    let ids = piece_ids(vocab, rules_of(rules), piece);
    assert forall|i: int| 0 <= i < r.len() implies ids[i] == (if vocab.contains_key(
        #[trigger] r[i],
    ) {
        vocab[r[i]]
    } else if vocab.contains_key("<unk>"@) {
        vocab["<unk>"@]
    } else {
        0
    }) by {
        assert(ids[i] == token_id(vocab, r[i]));
    }
    assert(r.flatten() == encode_utf8(piece).map_values(|b: u8| start_char(vocab, b)));
}

proof fn lemma_start(vocab: Map<Seq<char>, usize>, bytes: Seq<u8>)
    ensures
        bytes.map_values(|b: u8| byte_token(vocab, b)).flatten() == bytes.map_values(
            |b: u8| start_char(vocab, b),
        ),
    decreases bytes.len(),
{
    let f = |b: u8| byte_token(vocab, b);
    let g = |b: u8| start_char(vocab, b);
    let v = bytes.map_values(f);
    if bytes.len() == 0 {
        assert(v =~= Seq::empty());
        assert(v.flatten() =~= bytes.map_values(g));
    } else {
        let rest = bytes.drop_first();
        lemma_start(vocab, rest);
        assert(v.drop_first() =~= rest.map_values(f));
        assert(v.first() =~= seq![start_char(vocab, bytes[0])]);
        assert(v.flatten() =~= v.first() + v.drop_first().flatten());
        assert(bytes.map_values(g) =~= seq![start_char(vocab, bytes[0])] + rest.map_values(g));
    }
}

/// Of the entries with one text, the last is the one that its position names.
pub proof fn law_last_entry_of_a_text_is_found(vocab: Seq<EntryView>, i: int)
    requires
        vocab.len() <= usize::MAX,
        0 <= i < vocab.len(),
    ensures
        positions(vocab).contains_key(vocab[i].text),
        i <= positions(vocab)[vocab[i].text] < vocab.len(),
        vocab[positions(vocab)[vocab[i].text] as int].text == vocab[i].text,
    decreases vocab.len(),
{
    if i < vocab.len() - 1 {
        law_last_entry_of_a_text_is_found(vocab.drop_last(), i);
    }
}

/// The entries of a vocabulary are those of the arrays, position by position: the text,
/// the score or zero, and the control tokens are those of type three.
pub proof fn law_entries_follow_the_arrays(
    tokens: Seq<MetadataView>,
    scores: Seq<MetadataView>,
    types: Seq<MetadataView>,
    i: int,
    text: Seq<char>,
)
    requires
        0 <= i < tokens.len() <= usize::MAX,
        tokens[i] == MetadataView::String(text),
    ensures
        vocab_of(tokens, scores, types).len() == tokens.len(),
        vocab_of(tokens, scores, types)[i].text == text,
        i >= scores.len() ==> vocab_of(tokens, scores, types)[i].score == 0,
        i < scores.len() ==> (scores[i] matches MetadataView::Float32(x) ==> vocab_of(
            tokens,
            scores,
            types,
        )[i].score == x),
        i >= types.len() ==> shown(vocab_of(tokens, scores, types), i as usize) == text,
        i < types.len() ==> (types[i] matches MetadataView::Int32(t) ==> shown(
            vocab_of(tokens, scores, types),
            i as usize,
        ) == (if t == 3 {
            Seq::empty()
        } else {
            text
        })),
{
}

/// A token whose text stands for bytes, character by character, decodes to those bytes;
/// an id without an entry decodes to none.
pub proof fn law_tokens_decode_to_their_bytes(vocab: Seq<EntryView>, id: usize, bytes: Seq<u8>)
    ensures
        id >= vocab.len() ==> token_bytes(vocab, id) == Seq::<u8>::empty(),
        id < vocab.len() && shown(vocab, id) == bytes.map_values(|b: u8| byte_char(b))
            ==> token_bytes(vocab, id) == bytes,
    decreases bytes.len(),
{
    if id >= vocab.len() {
        assert(shown(vocab, id) =~= Seq::empty());
        assert(token_bytes(vocab, id) =~= Seq::empty());
    }
    lemma_chars_to_bytes(bytes);
}

proof fn lemma_chars_to_bytes(bytes: Seq<u8>)
    ensures
        bytes.map_values(|b: u8| byte_char(b)).filter_map(to_byte()) == bytes,
    decreases bytes.len(),
{
    let f = |b: u8| byte_char(b);
    let s = bytes.map_values(f);
    if bytes.len() == 0 {
        assert(s.filter_map(to_byte()) =~= bytes);
    } else {
        lemma_chars_to_bytes(bytes.drop_last());
        assert(s.drop_last() =~= bytes.drop_last().map_values(f));
        crate::byte_table::law_byte_char_reads_back(bytes.last());
        assert(char_byte(s.last()) == Some(bytes.last()));
        assert(s.filter_map(to_byte()) =~= s.drop_last().filter_map(to_byte()).push(bytes.last()));
        assert(bytes =~= bytes.drop_last().push(bytes.last()));
    }
}

/// A special token's id stands under its key, or under the other where the key is missing.
pub proof fn law_special_ids_are_looked_up(
    m: Map<Seq<char>, MetadataView>,
    key: Seq<char>,
    other: Seq<char>,
    n: u32,
)
    requires
        n < 0x8000_0000,
    ensures
        m.contains_key(key) && (m[key] == MetadataView::UInt32(n) || m[key]
            == MetadataView::Int32(n as i32)) ==> special_id(m, key, other) == Some(n as usize),
        !m.contains_key(key) && m.contains_key(other) && m[other] == MetadataView::UInt32(n)
            ==> special_id(m, key, other) == Some(n as usize),
        !m.contains_key(key) && !m.contains_key(other) ==> special_id(m, key, other) is None,
{
}

/// Encoding goes piece by piece. With the default pre-tokenizer the pieces are the words,
/// and white space is passed over.
pub proof fn law_default_encoding_goes_by_words(
    tok: Tokenizer,
    space: Seq<char>,
    w: Seq<char>,
    rest: Seq<char>,
)
    requires
        tok.pre_type@ == "default"@ || tok.pre_type@.len() == 0,
        forall|i: int| 0 <= i < space.len() ==> is_space(#[trigger] space[i]),
        w.len() > 0,
        forall|i: int| 0 <= i < w.len() ==> !is_space(#[trigger] w[i]),
        rest.len() > 0 ==> is_space(rest[0]),
    ensures
        tok.encoded(space + w + rest) == piece_ids(tok.vocab_map@, tok.merges@, w) + tok.encoded(
            rest,
        ),
{
    law_words_go_from_space_to_space(space, w, rest);
    lemma_first_piece_first(tok, w, words(rest));
}

proof fn lemma_first_piece_first(tok: Tokenizer, w: Seq<char>, rest: Seq<Seq<char>>)
    ensures
        ({
            let f = |piece: Seq<char>| piece_ids(tok.vocab_map@, tok.merges@, piece);
            (seq![w] + rest).map_values(f).flatten() == f(w) + rest.map_values(f).flatten()
        }),
{
    let f = |piece: Seq<char>| piece_ids(tok.vocab_map@, tok.merges@, piece);
    let v = (seq![w] + rest).map_values(f);
    assert(v.first() == f(w));
    assert(v.drop_first() =~= rest.map_values(f));
}

/// With any other pre-tokenizer letters and digits that follow each other are encoded
/// together, with a blank in front of them where white space stands there; every other
/// character is encoded alone.
pub proof fn law_encoding_goes_by_pieces(
    tok: Tokenizer,
    space: Seq<char>,
    w: Seq<char>,
    c: char,
    rest: Seq<char>,
)
    requires
        tok.pre_type@ != "default"@,
        tok.pre_type@.len() > 0,
        forall|i: int| 0 <= i < space.len() ==> is_ascii_blank(#[trigger] space[i]),
        w.len() > 0,
        forall|i: int| 0 <= i < w.len() ==> is_letter_or_digit(#[trigger] w[i]),
        !is_letter_or_digit(c),
        !is_ascii_blank(c),
    ensures
        tok.encoded(seq![c] + rest) == piece_ids(tok.vocab_map@, tok.merges@, seq![c])
            + tok.encoded(rest),
        (rest.len() == 0 || !is_letter_or_digit(rest[0])) && space.len() == 0 ==> tok.encoded(
            w + rest,
        ) == piece_ids(tok.vocab_map@, tok.merges@, w) + tok.encoded(rest),
        (rest.len() == 0 || !is_letter_or_digit(rest[0])) && space.len() > 0 ==> tok.encoded(
            space + w + rest,
        ) == piece_ids(tok.vocab_map@, tok.merges@, seq![' '] + w) + tok.encoded(rest),
{
    law_other_characters_stand_alone(c, rest);
    lemma_first_piece_first(tok, seq![c], pieces(rest));
    if rest.len() == 0 || !is_letter_or_digit(rest[0]) {
        if space.len() == 0 {
            law_letters_and_digits_stay_together(w, rest);
            lemma_first_piece_first(tok, w, pieces(rest));
        } else {
            law_blank_goes_with_what_follows(space, w, rest);
            lemma_first_piece_first(tok, seq![' '] + w, pieces(rest));
        }
    }
}

} // verus!
