//! Splitting identifiers into words and joining them in a chosen casing.
use vstd::prelude::*;
use crate::chars::{
    char_is_alphabetic, char_is_numeric, char_is_uppercase, char_to_lower, char_to_upper,
    chars_of, eq_lit, is_alpha, is_ascii_upper, is_num, is_upper, lower_of, push_all, push_str,
    string_of, string_of_range, upper_of,
};

verus! {

/// Identifier casings.
#[derive(Debug, Clone, Copy, PartialEq, Eq, Structural)]
pub enum Cases {
    Camel,
    Pascal,
    Snake,
    Macro,
    CamelSnake,
    PascalSnake,
    Kebab,
    Cobol,
    Train,
    Title,
    Sentence,
}

/// How a casing writes words.
#[derive(Debug, Clone, Copy, PartialEq, Eq, Structural)]
pub struct Formatting {
    /// first character of the first word: true for upper
    pub fwfc: bool,
    /// first character of the other words: true for upper
    pub fc: bool,
    /// the other characters: true for upper
    pub c: bool,
    /// what stands between two words
    pub between: Option<char>,
}

pub open spec fn formatting_of(case: Cases) -> Formatting {
    match case {
        Cases::Camel => Formatting { fwfc: false, fc: true, c: false, between: None },
        Cases::Pascal => Formatting { fwfc: true, fc: true, c: false, between: None },
        Cases::Snake => Formatting { fwfc: false, fc: false, c: false, between: Some('_') },
        Cases::Macro => Formatting { fwfc: true, fc: true, c: true, between: Some('_') },
        Cases::CamelSnake => Formatting { fwfc: false, fc: true, c: false, between: Some('_') },
        Cases::PascalSnake => Formatting { fwfc: true, fc: true, c: false, between: Some('_') },
        Cases::Kebab => Formatting { fwfc: false, fc: false, c: false, between: Some('-') },
        Cases::Cobol => Formatting { fwfc: true, fc: true, c: true, between: Some('-') },
        Cases::Train => Formatting { fwfc: true, fc: true, c: false, between: Some('-') },
        Cases::Title => Formatting { fwfc: true, fc: true, c: false, between: Some(' ') },
        Cases::Sentence => Formatting { fwfc: true, fc: false, c: false, between: Some(' ') },
    }
}

/// ASCII letters folded to lower case; every other character kept.
pub open spec fn ascii_fold(s: Seq<char>) -> Seq<char> {
    s.map_values(|c: char| if is_ascii_upper(c) { ((c as u32) + 32) as char } else { c })
}

/// The casing a name denotes, compared without regard to ASCII case.
pub open spec fn case_named(s: Seq<char>) -> Option<Cases> {
    let f = ascii_fold(s);
    if f == "camel"@ {
        Some(Cases::Camel)
    } else if f == "pascal"@ {
        Some(Cases::Pascal)
    } else if f == "snake"@ {
        Some(Cases::Snake)
    } else if f == "macro"@ {
        Some(Cases::Macro)
    } else if f == "camel_snake"@ {
        Some(Cases::CamelSnake)
    } else if f == "pascal_snake"@ {
        Some(Cases::PascalSnake)
    } else if f == "kebab"@ {
        Some(Cases::Kebab)
    } else if f == "cobol"@ {
        Some(Cases::Cobol)
    } else if f == "train"@ {
        Some(Cases::Train)
    } else if f == "title"@ {
        Some(Cases::Title)
    } else if f == "sentence"@ {
        Some(Cases::Sentence)
    } else {
        None
    }
}

fn fold_ascii(s: &str) -> (r: String)
    ensures
        r@ == ascii_fold(s@),
{
    let cs = chars_of(s);
    let mut out: Vec<char> = Vec::new();
    let mut i: usize = 0;
    while i < cs.len()
        invariant
            0 <= i <= cs@.len(),
            cs@ == s@,
            out@ == ascii_fold(cs@.subrange(0, i as int)),
        decreases cs.len() - i,
    {
        let c = cs[i];
        let f = if 'A' <= c && c <= 'Z' {
            ((c as u32) + 32) as u8 as char
        } else {
            c
        };
        assert(f == (if is_ascii_upper(c) { ((c as u32) + 32) as char } else { c })) by {
            if is_ascii_upper(c) {
                assert((((c as u32) + 32) as u8 as char) == (((c as u32) + 32) as char));
            }
        }
        out.push(f);
        i = i + 1;
        assert(out@ =~= ascii_fold(cs@.subrange(0, i as int)));
    }
    assert(cs@.subrange(0, cs.len() as int) =~= cs@);
    string_of(&out)
}

impl Cases {
    pub fn get_formatting(self) -> (r: Formatting)
        ensures
            r == formatting_of(self),
    {
        match self {
            Cases::Camel => Formatting { fwfc: false, fc: true, c: false, between: None },
            Cases::Pascal => Formatting { fwfc: true, fc: true, c: false, between: None },
            Cases::Snake => Formatting { fwfc: false, fc: false, c: false, between: Some('_') },
            Cases::Macro => Formatting { fwfc: true, fc: true, c: true, between: Some('_') },
            Cases::CamelSnake => Formatting { fwfc: false, fc: true, c: false, between: Some('_') },
            Cases::PascalSnake => Formatting { fwfc: true, fc: true, c: false, between: Some('_') },
            Cases::Kebab => Formatting { fwfc: false, fc: false, c: false, between: Some('-') },
            Cases::Cobol => Formatting { fwfc: true, fc: true, c: true, between: Some('-') },
            Cases::Train => Formatting { fwfc: true, fc: true, c: false, between: Some('-') },
            Cases::Title => Formatting { fwfc: true, fc: true, c: false, between: Some(' ') },
            Cases::Sentence => Formatting { fwfc: true, fc: false, c: false, between: Some(' ') },
        }
    }

    /// The casing named by `s` (`camel`, `pascal`, `snake`, `macro`,
    /// `camel_snake`, `pascal_snake`, `kebab`, `cobol`, `train`, `title`,
    /// `sentence`), in any ASCII case.
    pub fn from_str(s: &str) -> (r: Result<Cases, String>)
        ensures
            match case_named(s@) {
                Some(c) => r == Ok::<Cases, String>(c),
                None => r matches Err(m) && m@ == "Invalid casing: "@ + s@,
            },
    {
        let f = fold_ascii(s);
        let f = f.as_str();
        if eq_lit(f, "camel") {
            Ok(Cases::Camel)
        } else if eq_lit(f, "pascal") {
            Ok(Cases::Pascal)
        } else if eq_lit(f, "snake") {
            Ok(Cases::Snake)
        } else if eq_lit(f, "macro") {
            Ok(Cases::Macro)
        } else if eq_lit(f, "camel_snake") {
            Ok(Cases::CamelSnake)
        } else if eq_lit(f, "pascal_snake") {
            Ok(Cases::PascalSnake)
        } else if eq_lit(f, "kebab") {
            Ok(Cases::Kebab)
        } else if eq_lit(f, "cobol") {
            Ok(Cases::Cobol)
        } else if eq_lit(f, "train") {
            Ok(Cases::Train)
        } else if eq_lit(f, "title") {
            Ok(Cases::Title)
        } else if eq_lit(f, "sentence") {
            Ok(Cases::Sentence)
        } else {
            let mut msg: Vec<char> = Vec::new();
            push_str(&mut msg, "Invalid casing: ");
            push_str(&mut msg, s);
            Err(string_of(&msg))
        }
    }
}

// ---------------------------------------------------------------- words

/// The word splitter's state.
pub struct WordState {
    pub words: Seq<Seq<char>>,
    pub cur: Seq<char>,
    pub in_word: bool,
    pub last_case: bool,
    pub is_first: bool,
    pub numbers: bool,
}

pub open spec fn word_start() -> WordState {
    WordState {
        words: Seq::empty(),
        cur: Seq::empty(),
        in_word: false,
        last_case: false,
        is_first: true,
        numbers: false,
    }
}

/// One character: a word ends where the character class (letter, digit,
/// other) changes, or where the case changes after the word's second
/// character; characters that are neither letters nor digits separate words.
pub open spec fn word_step(st: WordState, c: char) -> WordState {
    let alnum = is_alpha(c) || is_num(c);
    let number = is_num(c);
    if !st.in_word {
        if alnum {
            WordState {
                cur: seq![c],
                in_word: true,
                last_case: is_upper(c),
                is_first: true,
                numbers: number,
                ..st
            }
        } else {
            st
        }
    } else {
        let case = is_upper(c);
        if (!st.is_first && case != st.last_case) || !alnum || st.numbers != number {
            let words = st.words.push(st.cur);
            if alnum {
                WordState {
                    words,
                    cur: seq![c],
                    in_word: true,
                    last_case: case,
                    is_first: true,
                    numbers: number,
                }
            } else {
                WordState {
                    words,
                    cur: Seq::empty(),
                    in_word: false,
                    last_case: case,
                    is_first: false,
                    numbers: st.numbers,
                }
            }
        } else {
            WordState { cur: st.cur.push(c), last_case: case, is_first: false, ..st }
        }
    }
}

pub open spec fn word_run(s: Seq<char>) -> WordState
    decreases s.len(),
{
    if s.len() == 0 {
        word_start()
    } else {
        word_step(word_run(s.drop_last()), s.last())
    }
}

/// The words of an identifier, in order.
pub open spec fn words_of(s: Seq<char>) -> Seq<Seq<char>> {
    word_step(word_run(s), ' ').words
}

/// A word as the splitter makes it: not empty, letters or digits only, all
/// of one class (digits or not), and from its second character on all of
/// one case.
pub open spec fn word_ok(w: Seq<char>) -> bool {
    w.len() > 0 && forall|i: int|
        0 <= i < w.len() ==> (is_alpha(#[trigger] w[i]) || is_num(w[i])) && is_num(w[i]) == is_num(
            w[0],
        ) && (i >= 2 ==> is_upper(w[i]) == is_upper(w[1]))
}

pub open spec fn word_inv(st: WordState) -> bool {
    &&& forall|k: int| 0 <= k < st.words.len() ==> word_ok(#[trigger] st.words[k])
    &&& st.in_word ==> word_ok(st.cur) && st.numbers == is_num(st.cur[0]) && st.last_case
        == is_upper(st.cur.last()) && (st.is_first <==> st.cur.len() == 1)
}

proof fn lemma_word_step(st: WordState, c: char)
    requires
        word_inv(st),
    ensures
        word_inv(word_step(st, c)),
{
    let n = word_step(st, c);
    if st.in_word {
        assert forall|k: int| 0 <= k < n.words.len() implies word_ok(#[trigger] n.words[k]) by {
            if k < st.words.len() {
                assert(n.words[k] == st.words[k]);
            }
        }
        if n.in_word {
            if n.cur.len() > 1 {
                let w = n.cur;
                assert(w == st.cur.push(c));
                assert forall|i: int| 0 <= i < w.len() implies (is_alpha(#[trigger] w[i]) || is_num(
                    w[i],
                )) && is_num(w[i]) == is_num(w[0]) && (i >= 2 ==> is_upper(w[i]) == is_upper(w[1])) by {
                    if i < w.len() - 1 {
                        assert(w[i] == st.cur[i]);
                    }
                    if w.len() > 2 {
                        assert(w[1] == st.cur[1]);
                    }
                    assert(w[0] == st.cur[0]);
                }
            }
        }
    }
}

proof fn lemma_word_run(s: Seq<char>)
    ensures
        word_inv(word_run(s)),
    decreases s.len(),
{
    if s.len() > 0 {
        lemma_word_run(s.drop_last());
        lemma_word_step(word_run(s.drop_last()), s.last());
    }
}

/// Each word of an identifier is a non-empty run of letters or digits, all
/// digits or none, whose case does not change after its second character.
pub proof fn lemma_words_of(s: Seq<char>)
    ensures
        forall|k: int| 0 <= k < words_of(s).len() ==> word_ok(#[trigger] words_of(s)[k]),
{
    lemma_word_run(s);
    lemma_word_step(word_run(s), ' ');
}

/// The letters and digits of a text, in order.
pub open spec fn alnum_chars(s: Seq<char>) -> Seq<char>
    decreases s.len(),
{
    if s.len() == 0 {
        Seq::empty()
    } else if is_alpha(s.last()) || is_num(s.last()) {
        alnum_chars(s.drop_last()).push(s.last())
    } else {
        alnum_chars(s.drop_last())
    }
}

/// Words written one after another.
pub open spec fn concat_words(ws: Seq<Seq<char>>) -> Seq<char>
    decreases ws.len(),
{
    if ws.len() == 0 {
        Seq::empty()
    } else {
        concat_words(ws.drop_last()) + ws.last()
    }
}

proof fn lemma_word_chars(s: Seq<char>)
    ensures
        concat_words(word_run(s).words) + word_run(s).cur == alnum_chars(s),
        !word_run(s).in_word ==> word_run(s).cur.len() == 0,
    decreases s.len(),
{
    if s.len() > 0 {
        let p = s.drop_last();
        lemma_word_chars(p);
        let st = word_run(p);
        let c = s.last();
        let n = word_step(st, c);
        if n.words.len() > st.words.len() {
            assert(n.words.drop_last() == st.words);
            assert(concat_words(n.words) == concat_words(st.words) + st.cur);
        }
        assert(concat_words(n.words) + n.cur =~= alnum_chars(s));
    } else {
        assert(concat_words(Seq::<Seq<char>>::empty()) + Seq::<char>::empty() =~= alnum_chars(s));
    }
}

/// Read one after another, the words are exactly the letters and digits of
/// the identifier: other characters only separate them.
pub proof fn lemma_words_cover(s: Seq<char>)
    ensures
        concat_words(words_of(s)) == alnum_chars(s),
{
    lemma_word_chars(s);
    let st = word_run(s);
    let n = word_step(st, ' ');
    if st.in_word {
        assert(n.words.drop_last() == st.words);
        assert(concat_words(n.words) =~= concat_words(st.words) + st.cur);
    } else {
        assert(concat_words(st.words) + st.cur =~= concat_words(st.words));
    }
}

/// Where the exec word splitter stands.
struct WordCursor {
    start: usize,
    in_word: bool,
    last_case: bool,
    is_first: bool,
    numbers: bool,
}

spec fn cursor_state(w: WordCursor, result: Seq<String>, cs: Seq<char>, i: int) -> WordState {
    WordState {
        words: result.map_values(|w: String| w@),
        cur: if w.in_word {
            cs.subrange(w.start as int, i)
        } else {
            Seq::empty()
        },
        in_word: w.in_word,
        last_case: w.last_case,
        is_first: w.is_first,
        numbers: w.numbers,
    }
}

/// Reads `c`, the character at `i` or, at the end, a closing space.
fn word_advance(w: &mut WordCursor, result: &mut Vec<String>, cs: &Vec<char>, i: usize, c: char)
    requires
        i <= cs@.len(),
        i < cs@.len() ==> c == cs@[i as int],
        i == cs@.len() ==> c == ' ',
        old(w).in_word ==> old(w).start < i,
    ensures
        ({
            let st = word_step(cursor_state(*old(w), old(result)@, cs@, i as int), c);
            &&& final(result)@.map_values(|w: String| w@) == st.words
            &&& i < cs@.len() ==> cursor_state(*final(w), final(result)@, cs@, i + 1) == st
            &&& final(w).in_word ==> final(w).start <= i
        }),
{
    let ghost st = cursor_state(*w, result@, cs@, i as int);
    let ghost r0 = result@;
    let alpha = char_is_alphabetic(c);
    let number = char_is_numeric(c);
    if !w.in_word {
        if alpha || number {
            w.numbers = number;
            w.in_word = true;
            w.start = i;
            w.is_first = true;
            w.last_case = char_is_uppercase(c);
            proof {
                if i < cs@.len() {
                    assert(cs@.subrange(i as int, i + 1) =~= seq![c]);
                }
            }
        }
        return ;
    }
    let case = char_is_uppercase(c);
    let lc = w.last_case;
    w.last_case = case;
    if (!w.is_first && case != lc) || !(alpha || number) || w.numbers != number {
        let word = string_of_range(cs, w.start, i);
        result.push(word);
        assert(result@.map_values(|w: String| w@) =~= r0.map_values(|w: String| w@).push(st.cur));
        if alpha || number {
            w.numbers = number;
            w.start = i;
            w.is_first = true;
            proof {
                if i < cs@.len() {
                    assert(cs@.subrange(i as int, i + 1) =~= seq![c]);
                }
            }
            return ;
        }
        w.in_word = false;
    } else {
        proof {
            if i < cs@.len() {
                assert(cs@.subrange(w.start as int, i + 1) =~= cs@.subrange(w.start as int, i as int).push(c));
            }
        }
    }
    w.is_first = false;
}

/// Splits `source` into words: runs of letters or of digits, broken where
/// the case changes inside a run of letters; other characters only
/// separate.
pub fn get_words(source: &str) -> (r: Vec<String>)
    ensures
        r@.map_values(|w: String| w@) == words_of(source@),
{
    let cs = chars_of(source);
    let n = cs.len();
    let mut result: Vec<String> = Vec::new();
    let mut w = WordCursor { start: 0, in_word: false, last_case: false, is_first: true, numbers: false };
    let mut i: usize = 0;
    assert(result@.map_values(|w: String| w@) =~= Seq::<Seq<char>>::empty());
    while i < n
        invariant
            0 <= i <= n,
            n == cs@.len(),
            cs@ == source@,
            w.in_word ==> w.start < i,
            cursor_state(w, result@, cs@, i as int) == word_run(cs@.subrange(0, i as int)),
        decreases n - i,
    {
        assert(cs@.subrange(0, i + 1).drop_last() =~= cs@.subrange(0, i as int));
        word_advance(&mut w, &mut result, &cs, i, cs[i]);
        i = i + 1;
    }
    assert(cs@.subrange(0, n as int) =~= cs@);
    word_advance(&mut w, &mut result, &cs, n, ' ');
    result
}

pub open spec fn cased(c: char, upper: bool) -> Seq<char> {
    if upper {
        upper_of(c)
    } else {
        lower_of(c)
    }
}

/// How one word is written; the first word gets a leading `_` when it
/// starts with a digit.
pub open spec fn word_text(w: Seq<char>, first_word: bool, f: Formatting) -> Seq<char>
    decreases w.len(),
{
    if w.len() == 0 {
        Seq::empty()
    } else if w.len() == 1 {
        (if first_word && is_num(w[0]) {
            seq!['_']
        } else {
            Seq::empty()
        }) + cased(
            w[0],
            if first_word {
                f.fwfc
            } else {
                f.fc
            },
        )
    } else {
        word_text(w.drop_last(), first_word, f) + cased(w.last(), f.c)
    }
}

/// The words written in a casing.
pub open spec fn cased_text(ws: Seq<Seq<char>>, f: Formatting) -> Seq<char>
    decreases ws.len(),
{
    if ws.len() == 0 {
        Seq::empty()
    } else {
        cased_text(ws.drop_last(), f) + (if ws.len() > 1 && f.between is Some {
            seq![f.between->Some_0]
        } else {
            Seq::empty()
        }) + word_text(ws.last(), ws.len() == 1, f)
    }
}

fn push_case(out: &mut Vec<char>, c: char, case: bool)
    ensures
        final(out)@ == old(out)@ + cased(c, case),
{
    let cs = if case {
        char_to_upper(c)
    } else {
        char_to_lower(c)
    };
    push_all(out, &cs);
}

fn push_word(out: &mut Vec<char>, w: &str, first_word: bool, f: Formatting)
    ensures
        final(out)@ == old(out)@ + word_text(w@, first_word, f),
{
    let cs = chars_of(w);
    let ghost start = out@;
    let mut i: usize = 0;
    while i < cs.len()
        invariant
            0 <= i <= cs@.len(),
            cs@ == w@,
            out@ == start + word_text(cs@.subrange(0, i as int), first_word, f),
        decreases cs.len() - i,
    {
        let c = cs[i];
        let ghost pre = cs@.subrange(0, i as int);
        if i == 0 {
            if first_word {
                if char_is_numeric(c) {
                    out.push('_');
                }
                push_case(out, c, f.fwfc);
            } else {
                push_case(out, c, f.fc);
            }
        } else {
            push_case(out, c, f.c);
        }
        i = i + 1;
        assert(cs@.subrange(0, i as int).drop_last() =~= pre);
        assert(out@ =~= start + word_text(cs@.subrange(0, i as int), first_word, f));
    }
    assert(cs@.subrange(0, cs.len() as int) =~= cs@);
}

/// Writes the words in the given casing.
pub fn to_case(decoded: Vec<&str>, case: Cases) -> (r: String)
    ensures
        r@ == cased_text(decoded@.map_values(|w: &str| w@), formatting_of(case)),
{
    let f = case.get_formatting();
    let ghost ws = decoded@.map_values(|w: &str| w@);
    let mut out: Vec<char> = Vec::new();
    let mut i: usize = 0;
    while i < decoded.len()
        invariant
            0 <= i <= decoded@.len(),
            ws == decoded@.map_values(|w: &str| w@),
            f == formatting_of(case),
            out@ == cased_text(ws.subrange(0, i as int), f),
        decreases decoded.len() - i,
    {
        let ghost pre = ws.subrange(0, i as int);
        if i > 0 {
            match f.between {
                Some(b) => out.push(b),
                None => {},
            }
        }
        push_word(&mut out, decoded[i], i == 0, f);
        i = i + 1;
        assert(ws.subrange(0, i as int).drop_last() =~= pre);
        assert(out@ =~= cased_text(ws.subrange(0, i as int), f));
    }
    assert(ws.subrange(0, decoded.len() as int) =~= ws);
    string_of(&out)
}

/// The identifier's words written in the given casing.
pub fn convert_case(source: &str, case: Cases) -> (r: String)
    ensures
        r@ == cased_text(words_of(source@), formatting_of(case)),
{
    let words = get_words(source);
    let mut refs: Vec<&str> = Vec::new();
    let mut i: usize = 0;
    while i < words.len()
        invariant
            0 <= i <= words@.len(),
            refs@.map_values(|w: &str| w@) == words@.subrange(0, i as int).map_values(
                |w: String| w@,
            ),
        decreases words.len() - i,
    {
        let ghost r0 = refs@;
        let s = words[i].as_str();
        refs.push(s);
        assert(refs@.map_values(|w: &str| w@) =~= r0.map_values(|w: &str| w@).push(s@));
        assert(words@.subrange(0, i + 1).map_values(|w: String| w@) =~= words@.subrange(
            0,
            i as int,
        ).map_values(|w: String| w@).push(words@[i as int]@));
        i = i + 1;
    }
    assert(words@.subrange(0, words.len() as int) =~= words@);
    to_case(refs, case)
}

} // verus!
