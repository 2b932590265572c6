//! Pre-tokenizers: cutting a text into the pieces that are encoded one by one.

use crate::text::{chars_of, is_space, is_space_char, text_of};
use vstd::prelude::*;
use vstd::string::StringExecFns;

verus! {

broadcast use vstd::string::group_string_axioms;

/// Classes of characters whose runs are kept together.
#[derive(Debug, Clone, Copy, PartialEq, Eq, Structural)]
pub enum Class {
    /// ASCII letters and digits.
    Alphanumeric,
    /// ASCII white space.
    Blank,
    /// Everything but Unicode white space.
    Solid,
}

impl Class {
    /// The characters of the class.
    pub open spec fn holds(self, c: char) -> bool {
        match self {
            Class::Alphanumeric => ('0' <= c && c <= '9') || ('A' <= c && c <= 'Z') || ('a' <= c
                && c <= 'z'),
            Class::Blank => c == ' ' || c == '\t' || c == '\n' || c == '\r' || c == '\u{C}',
            Class::Solid => !is_space(c),
        }
    }

    /// Whether a character is of the class.
    pub fn has(self, c: char) -> (r: bool)
        ensures
            r == self.holds(c),
    {
        match self {
            Class::Alphanumeric => ('0' <= c && c <= '9') || ('A' <= c && c <= 'Z') || ('a' <= c
                && c <= 'z'),
            Class::Blank => c == ' ' || c == '\t' || c == '\n' || c == '\r' || c == '\u{C}',
            Class::Solid => !is_space_char(c),
        }
    }
}

/// How many characters of the class `s` starts with.
pub open spec fn run_len(s: Seq<char>, class: Class) -> nat
    decreases s.len(),
{
    if s.len() > 0 && class.holds(s[0]) {
        1 + run_len(s.drop_first(), class)
    } else {
        0
    }
}

/// A run lies within the text, and is not empty where its first character is of the
/// class.
pub proof fn lemma_run_len(s: Seq<char>, class: Class)
    ensures
        run_len(s, class) <= s.len(),
        s.len() > 0 && class.holds(s[0]) ==> run_len(s, class) > 0,
        forall|i: int| 0 <= i < run_len(s, class) ==> class.holds(#[trigger] s[i]),
    decreases s.len(),
{
    if s.len() > 0 && class.holds(s[0]) {
        let t = s.drop_first();
        lemma_run_len(t, class);
        assert forall|i: int| 0 <= i < run_len(s, class) implies class.holds(#[trigger] s[i]) by {
            if i > 0 {
                assert(s[i] == t[i - 1]);
            }
        }
    }
}

/// The words of a text: its runs of everything but white space.
pub open spec fn words(s: Seq<char>) -> Seq<Seq<char>>
    decreases s.len(),
{
    proof {
        lemma_run_len(s, Class::Solid);
    }
    let n = run_len(s, Class::Solid) as int;
    if s.len() == 0 {
        Seq::empty()
    } else if n == 0 {
        words(s.drop_first())
    } else {
        seq![s.take(n)] + words(s.skip(n))
    }
}

/// A text as byte-level BPE cuts it. A run of ASCII letters and digits is one
/// piece; any other character is a piece of its own. Of a run of ASCII white
/// space one blank is left, in front of the letters and digits that follow, or
/// as a piece of its own.
pub open spec fn pieces(s: Seq<char>) -> Seq<Seq<char>>
    decreases s.len(),
{
    proof {
        lemma_runs(s);
    }
    let n = run_len(s, Class::Alphanumeric) as int;
    let b = run_len(s, Class::Blank) as int;
    if s.len() == 0 {
        Seq::empty()
    } else if n > 0 {
        seq![s.take(n)] + pieces(s.skip(n))
    } else if b == 0 {
        seq![seq![s[0]]] + pieces(s.drop_first())
    } else {
        let m = run_len(s.skip(b), Class::Alphanumeric) as int;
        seq![seq![' '] + s.skip(b).take(m)] + pieces(s.skip(b + m))
    }
}

/// The runs that a cut looks at lie within the text.
pub proof fn lemma_runs(s: Seq<char>)
    ensures
        run_len(s, Class::Solid) <= s.len(),
        run_len(s, Class::Alphanumeric) <= s.len(),
        run_len(s, Class::Blank) <= s.len(),
        run_len(s.skip(run_len(s, Class::Blank) as int), Class::Alphanumeric) <= s.len() - run_len(
            s,
            Class::Blank,
        ),
{
    lemma_run_len(s, Class::Solid);
    lemma_run_len(s, Class::Alphanumeric);
    lemma_run_len(s, Class::Blank);
    lemma_run_len(s.skip(run_len(s, Class::Blank) as int), Class::Alphanumeric);
}

/// What the texts hold.
pub open spec fn texts(v: Seq<String>) -> Seq<Seq<char>> {
    Seq::new(v.len(), |i: int| v[i]@)
}

fn run_end(chars: &Vec<char>, from: usize, class: Class) -> (r: usize)
    requires
        from <= chars@.len(),
    ensures
        r == from + run_len(chars@.skip(from as int), class),
        r <= chars@.len(),
{
    let mut i: usize = from;
    let ghost n = from + run_len(chars@.skip(from as int), class);
    while i < chars.len() && class.has(chars[i])
        invariant
            from <= i <= chars@.len(),
            n == i + run_len(chars@.skip(i as int), class),
        decreases chars@.len() - i,
    {
        assert(chars@.skip(i as int).drop_first() =~= chars@.skip(i + 1));
        i += 1;
    }
    i
}

fn slice_text(chars: &Vec<char>, from: usize, to: usize) -> (r: String)
    requires
        from <= to <= chars@.len(),
    ensures
        r@ == chars@.subrange(from as int, to as int),
{
    text_of(&chars[from..to])
}

/// Default pre-tokenizer: split on whitespace
pub fn split_words(text: &str) -> (r: Vec<String>)
    ensures
        texts(r@) == words(text@),
{
    let chars = chars_of(text);
    let mut out: Vec<String> = Vec::new();
    let mut i: usize = 0;
    assert(chars@.skip(0) =~= chars@);
    assert(texts(out@) + words(chars@) =~= words(chars@));
    while i < chars.len()
        invariant
            i <= chars@.len(),
            chars@ == text@,
            texts(out@) + words(chars@.skip(i as int)) == words(text@),
        decreases chars@.len() - i,
    {
        let ghost s = chars@.skip(i as int);
        let ghost before = out@;
        proof {
            lemma_runs(s);
        }
        let j: usize = run_end(&chars, i, Class::Solid);
        if j == i {
            assert(s.drop_first() =~= chars@.skip(i + 1));
            i += 1;
        } else {
            out.push(slice_text(&chars, i, j));
            proof {
                let n = j - i;
                assert(chars@.subrange(i as int, j as int) =~= s.take(n));
                assert(s.skip(n) =~= chars@.skip(j as int));
                assert(texts(out@) =~= texts(before).push(s.take(n)));
                assert(texts(before) + (seq![s.take(n)] + words(s.skip(n))) =~= texts(out@) + words(
                    s.skip(n),
                ));
            }
            i = j;
        }
    }
    assert(texts(out@) + words(chars@.skip(i as int)) =~= texts(out@));
    out
}

/// BPE-style pre-tokenizer: split into word pieces, respecting punctuation
pub fn split_pieces(text: &str) -> (r: Vec<String>)
    ensures
        texts(r@) == pieces(text@),
{
    let chars = chars_of(text);
    let mut out: Vec<String> = Vec::new();
    let mut i: usize = 0;
    assert(chars@.skip(0) =~= chars@);
    assert(texts(out@) + pieces(chars@) =~= pieces(chars@));
    while i < chars.len()
        invariant
            i <= chars@.len(),
            chars@ == text@,
            texts(out@) + pieces(chars@.skip(i as int)) == pieces(text@),
        decreases chars@.len() - i,
    {
        let ghost s = chars@.skip(i as int);
        let ghost before = out@;
        let ghost mut piece: Seq<char> = Seq::empty();
        proof {
            lemma_runs(s);
        }
        let start: usize = i;
        if Class::Alphanumeric.has(chars[i]) {
            let j: usize = run_end(&chars, i, Class::Alphanumeric);
            out.push(slice_text(&chars, i, j));
            proof {
                lemma_run_len(s, Class::Alphanumeric);
                piece = s.take(j - i);
                assert(chars@.subrange(i as int, j as int) =~= piece);
            }
            i = j;
        } else if !Class::Blank.has(chars[i]) {
            out.push(slice_text(&chars, i, i + 1));
            proof {
                piece = seq![s[0]];
                assert(chars@.subrange(i as int, i + 1) =~= piece);
                assert(s.drop_first() =~= s.skip(1));
            }
            i += 1;
        } else {
            let b: usize = run_end(&chars, i, Class::Blank);
            let ghost rest = s.skip(b - i);
            assert(rest =~= chars@.skip(b as int));
            let j: usize = run_end(&chars, b, Class::Alphanumeric);
            let mut p = " ".to_owned();
            let w = slice_text(&chars, b, j);
            p.append(w.as_str());
            proof {
                lemma_run_len(s, Class::Blank);
                reveal_strlit(" ");
                piece = seq![' '] + rest.take(j - b);
                assert(p@ =~= piece);
            }
            out.push(p);
            i = j;
        }
        proof {
            let n = i - start;
            assert(s.skip(n) =~= chars@.skip(i as int));
            assert(texts(out@) =~= texts(before).push(piece));
            assert(texts(before) + (seq![piece] + pieces(s.skip(n))) =~= texts(out@) + pieces(
                s.skip(n),
            ));
        }
    }
    assert(texts(out@) + pieces(chars@.skip(i as int)) =~= texts(out@));
    out
}

/// The text with every run of ASCII white space replaced by one blank.
pub open spec fn collapsed(s: Seq<char>) -> Seq<char>
    decreases s.len(),
{
    proof {
        lemma_run_len(s, Class::Blank);
    }
    let b = run_len(s, Class::Blank) as int;
    if s.len() == 0 {
        Seq::empty()
    } else if b == 0 {
        seq![s[0]] + collapsed(s.drop_first())
    } else {
        seq![' '] + collapsed(s.skip(b))
    }
}

proof fn lemma_collapsed_run(s: Seq<char>, n: int)
    requires
        0 <= n <= s.len(),
        forall|i: int| 0 <= i < n ==> !Class::Blank.holds(#[trigger] s[i]),
    ensures
        collapsed(s) == s.take(n) + collapsed(s.skip(n)),
    decreases n,
{
    if n == 0 {
        assert(s.skip(0) =~= s);
        assert(s.take(0) + collapsed(s) =~= collapsed(s));
    } else {
        let t = s.drop_first();
        assert forall|i: int| 0 <= i < n - 1 implies !Class::Blank.holds(#[trigger] t[i]) by {
            assert(t[i] == s[i + 1]);
        }
        lemma_collapsed_run(t, n - 1);
        assert(t.skip(n - 1) =~= s.skip(n));
        assert(!Class::Blank.holds(s[0]));
        assert(seq![s[0]] + (t.take(n - 1) + collapsed(s.skip(n))) =~= s.take(n) + collapsed(
            s.skip(n),
        ));
    }
}

/// Cutting into pieces loses nothing but white space: put together again, the
/// pieces are the text with every run of ASCII white space as one blank.
pub proof fn law_pieces_make_up_the_text(s: Seq<char>)
    ensures
        pieces(s).flatten() == collapsed(s),
    decreases s.len(),
{
    lemma_runs(s);
    let n = run_len(s, Class::Alphanumeric) as int;
    let b = run_len(s, Class::Blank) as int;
    if s.len() > 0 {
        lemma_run_len(s, Class::Alphanumeric);
        lemma_run_len(s, Class::Blank);
        if n > 0 {
            law_pieces_make_up_the_text(s.skip(n));
            lemma_collapsed_run(s, n);
            lemma_first_piece(s.take(n), pieces(s.skip(n)));
        } else if b == 0 {
            law_pieces_make_up_the_text(s.drop_first());
            lemma_first_piece(seq![s[0]], pieces(s.drop_first()));
        } else {
            let rest = s.skip(b);
            let m = run_len(rest, Class::Alphanumeric) as int;
            lemma_run_len(rest, Class::Alphanumeric);
            law_pieces_make_up_the_text(s.skip(b + m));
            lemma_collapsed_run(rest, m);
            assert(rest.skip(m) =~= s.skip(b + m));
            lemma_first_piece(seq![' '] + rest.take(m), pieces(s.skip(b + m)));
            assert(seq![' '] + rest.take(m) + collapsed(s.skip(b + m)) =~= seq![' '] + (rest.take(m)
                + collapsed(s.skip(b + m))));
        }
    }
}

proof fn lemma_first_piece(first: Seq<char>, rest: Seq<Seq<char>>)
    ensures
        (seq![first] + rest).flatten() == first + rest.flatten(),
{
    let all = seq![first] + rest;
    assert(all.drop_first() =~= rest);
}

/// No piece is empty.
pub proof fn law_pieces_are_not_empty(s: Seq<char>, i: int)
    requires
        0 <= i < pieces(s).len(),
    ensures
        pieces(s)[i].len() > 0,
    decreases s.len(),
{
    lemma_runs(s);
    let n = run_len(s, Class::Alphanumeric) as int;
    let b = run_len(s, Class::Blank) as int;
    if i > 0 {
        if n > 0 {
            law_pieces_are_not_empty(s.skip(n), i - 1);
        } else if b == 0 {
            law_pieces_are_not_empty(s.drop_first(), i - 1);
        } else {
            let m = run_len(s.skip(b), Class::Alphanumeric) as int;
            law_pieces_are_not_empty(s.skip(b + m), i - 1);
        }
    }
}

/// The words of a text are not empty and hold no white space.
pub proof fn law_words_are_solid(s: Seq<char>, i: int)
    requires
        0 <= i < words(s).len(),
    ensures
        words(s)[i].len() > 0,
        forall|k: int| 0 <= k < words(s)[i].len() ==> !is_space(#[trigger] words(s)[i][k]),
    decreases s.len(),
{
    let n = run_len(s, Class::Solid) as int;
    lemma_run_len(s, Class::Solid);
    if n == 0 {
        law_words_are_solid(s.drop_first(), i);
    } else if i > 0 {
        law_words_are_solid(s.skip(n), i - 1);
    } else {
        assert forall|k: int| 0 <= k < words(s)[i].len() implies !is_space(
            #[trigger] words(s)[i][k],
        ) by {
            assert(words(s)[i][k] == s[k]);
            assert(Class::Solid.holds(s[k]));
        }
    }
}

/// The text without its white space.
pub open spec fn without_space(s: Seq<char>) -> Seq<char>
    decreases s.len(),
{
    if s.len() == 0 {
        Seq::empty()
    } else if is_space(s[0]) {
        without_space(s.drop_first())
    } else {
        seq![s[0]] + without_space(s.drop_first())
    }
}

proof fn lemma_without_space_run(s: Seq<char>, n: int)
    requires
        0 <= n <= s.len(),
        forall|i: int| 0 <= i < n ==> !is_space(#[trigger] s[i]),
    ensures
        without_space(s) == s.take(n) + without_space(s.skip(n)),
    decreases n,
{
    if n == 0 {
        assert(s.skip(0) =~= s);
        assert(s.take(0) + without_space(s) =~= without_space(s));
    } else {
        let t = s.drop_first();
        assert forall|i: int| 0 <= i < n - 1 implies !is_space(#[trigger] t[i]) by {
            assert(t[i] == s[i + 1]);
        }
        lemma_without_space_run(t, n - 1);
        assert(t.skip(n - 1) =~= s.skip(n));
        assert(!is_space(s[0]));
        assert(seq![s[0]] + (t.take(n - 1) + without_space(s.skip(n))) =~= s.take(n)
            + without_space(s.skip(n)));
    }
}

/// Put together, the words of a text are the text without its white space.
pub proof fn law_words_make_up_the_text(s: Seq<char>)
    ensures
        words(s).flatten() == without_space(s),
    decreases s.len(),
{
    let n = run_len(s, Class::Solid) as int;
    lemma_run_len(s, Class::Solid);
    if s.len() > 0 {
        if n == 0 {
            law_words_make_up_the_text(s.drop_first());
        } else {
            law_words_make_up_the_text(s.skip(n));
            assert forall|i: int| 0 <= i < n implies !is_space(#[trigger] s[i]) by {
                assert(Class::Solid.holds(s[i]));
            }
            lemma_without_space_run(s, n);
            lemma_first_piece(s.take(n), words(s.skip(n)));
        }
    }
}

/// An ASCII letter or digit, by its number.
pub open spec fn is_letter_or_digit(c: char) -> bool {
    let u = c as u32;
    48 <= u <= 57 || 65 <= u <= 90 || 97 <= u <= 122
}

/// A blank, a tab, a line feed, a form feed or a carriage return, by its number.
pub open spec fn is_ascii_blank(c: char) -> bool {
    let u = c as u32;
    u == 32 || u == 9 || u == 10 || u == 12 || u == 13
}

proof fn lemma_run_is_exact(s: Seq<char>, class: Class, n: int)
    requires
        0 <= n <= s.len(),
        forall|i: int| 0 <= i < n ==> class.holds(#[trigger] s[i]),
        n < s.len() ==> !class.holds(s[n]),
    ensures
        run_len(s, class) == n,
    decreases n,
{
    if n > 0 {
        assert(class.holds(s[0]));
        let t = s.drop_first();
        assert forall|i: int| 0 <= i < n - 1 implies class.holds(#[trigger] t[i]) by {
            assert(t[i] == s[i + 1]);
        }
        lemma_run_is_exact(t, class, n - 1);
    }
}

/// Letters and digits that follow each other are one piece, as far as they go.
pub proof fn law_letters_and_digits_stay_together(w: Seq<char>, rest: Seq<char>)
    requires
        w.len() > 0,
        forall|i: int| 0 <= i < w.len() ==> is_letter_or_digit(#[trigger] w[i]),
        rest.len() > 0 ==> !is_letter_or_digit(rest[0]),
    ensures
        pieces(w + rest) == seq![w] + pieces(rest),
{
    let s = w + rest;
    let n = w.len() as int;
    assert forall|i: int| 0 <= i < n implies Class::Alphanumeric.holds(#[trigger] s[i]) by {
        assert(s[i] == w[i]);
        lemma_letter_by_number(w[i]);
    }
    if n < s.len() {
        assert(s[n] == rest[0]);
        lemma_letter_by_number(rest[0]);
    }
    lemma_run_is_exact(s, Class::Alphanumeric, n);
    assert(s.take(n) =~= w);
    assert(s.skip(n) =~= rest);
}

/// A character that is neither a letter or digit nor white space is a piece of its own.
pub proof fn law_other_characters_stand_alone(c: char, rest: Seq<char>)
    requires
        !is_letter_or_digit(c),
        !is_ascii_blank(c),
    ensures
        pieces(seq![c] + rest) == seq![seq![c]] + pieces(rest),
{
    let s = seq![c] + rest;
    lemma_run_is_exact(s, Class::Alphanumeric, 0);
    lemma_run_is_exact(s, Class::Blank, 0);
    assert(s.drop_first() =~= rest);
}

/// White space becomes one blank, however much of it there is, and goes with the letters
/// and digits right behind it; where none follow, the blank is a piece of its own.
pub proof fn law_blank_goes_with_what_follows(space: Seq<char>, w: Seq<char>, rest: Seq<char>)
    requires
        space.len() > 0,
        forall|i: int| 0 <= i < space.len() ==> is_ascii_blank(#[trigger] space[i]),
        forall|i: int| 0 <= i < w.len() ==> is_letter_or_digit(#[trigger] w[i]),
        rest.len() > 0 ==> !is_letter_or_digit(rest[0]),
        w.len() == 0 && rest.len() > 0 ==> !is_ascii_blank(rest[0]),
    ensures
        pieces(space + w + rest) == seq![seq![' '] + w] + pieces(rest),
{
    let s = space + w + rest;
    let b = space.len() as int;
    let m = w.len() as int;
    assert forall|i: int| 0 <= i < b implies Class::Blank.holds(#[trigger] s[i]) by {
        assert(s[i] == space[i]);
        lemma_blank_by_number(space[i]);
    }
    if b < s.len() {
        if m > 0 {
            assert(s[b] == w[0]);
            lemma_blank_by_number(w[0]);
        } else {
            assert(s[b] == rest[0]);
            lemma_blank_by_number(rest[0]);
        }
    }
    lemma_run_is_exact(s, Class::Blank, b);
    assert(s[0] == space[0]);
    lemma_run_is_exact(s, Class::Alphanumeric, 0);
    let t = s.skip(b);
    assert(t =~= w + rest);
    assert forall|i: int| 0 <= i < m implies Class::Alphanumeric.holds(#[trigger] t[i]) by {
        assert(t[i] == w[i]);
        lemma_letter_by_number(w[i]);
    }
    if m < t.len() {
        assert(t[m] == rest[0]);
        lemma_letter_by_number(rest[0]);
    }
    lemma_run_is_exact(t, Class::Alphanumeric, m);
    assert(t.take(m) =~= w);
    assert(s.skip(b + m) =~= rest);
}

proof fn lemma_letter_by_number(c: char)
    ensures
        is_letter_or_digit(c) <==> Class::Alphanumeric.holds(c),
{
}

proof fn lemma_blank_by_number(c: char)
    ensures
        is_ascii_blank(c) <==> Class::Blank.holds(c),
        is_letter_or_digit(c) ==> !Class::Blank.holds(c),
{
}

/// A word goes as far as there is no white space, and what is in front of it is passed
/// over.
pub proof fn law_words_go_from_space_to_space(space: Seq<char>, w: Seq<char>, rest: Seq<char>)
    requires
        forall|i: int| 0 <= i < space.len() ==> is_space(#[trigger] space[i]),
        forall|i: int| 0 <= i < w.len() ==> !is_space(#[trigger] w[i]),
        rest.len() > 0 ==> is_space(rest[0]),
    ensures
        words(space + w + rest) == if w.len() == 0 {
            words(rest)
        } else {
            seq![w] + words(rest)
        },
    decreases space.len(),
{
    let s = space + w + rest;
    if space.len() > 0 {
        let t = space.drop_first();
        assert(s[0] == space[0]);
        lemma_run_is_exact(s, Class::Solid, 0);
        assert(s.drop_first() =~= t + w + rest);
        assert forall|i: int| 0 <= i < t.len() implies is_space(#[trigger] t[i]) by {
            assert(t[i] == space[i + 1]);
        }
        law_words_go_from_space_to_space(t, w, rest);
    } else if w.len() > 0 {
        let n = w.len() as int;
        assert forall|i: int| 0 <= i < n implies Class::Solid.holds(#[trigger] s[i]) by {
            assert(s[i] == w[i]);
        }
        if n < s.len() {
            assert(s[n] == rest[0]);
        }
        lemma_run_is_exact(s, Class::Solid, n);
        assert(s.take(n) =~= w);
        assert(s.skip(n) =~= rest);
    } else {
        assert(s =~= rest);
    }
}

} // verus!
