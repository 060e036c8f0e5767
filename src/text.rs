use rust_stemmers::{Algorithm, Stemmer};
use unicode_normalization::UnicodeNormalization;
use vstd::prelude::*;

verus! {

/// ASCII controls, the space, and every non-alphanumeric ASCII character
/// except the apostrophe.
pub open spec fn punct_char(c: char) -> bool {
    let n = c as u32;
    n <= 0x26 || (0x28 <= n && n <= 0x2F) || (0x3A <= n && n <= 0x40) || (0x5B <= n
        && n <= 0x60) || (0x7B <= n && n <= 0x7F)
}

/// Characters with the Unicode `White_Space` property.
pub open spec fn white_space(c: char) -> bool {
    let n = c as u32;
    (0x09 <= n && n <= 0x0D) || n == 0x20 || n == 0x85 || n == 0xA0 || n == 0x1680 || (0x2000
        <= n && n <= 0x200A) || n == 0x2028 || n == 0x2029 || n == 0x202F || n == 0x205F || n
        == 0x3000
}

/// A character that ends a token.
pub open spec fn separator(c: char) -> bool {
    punct_char(c) || white_space(c)
}

/// The tokens of `s`: its maximal runs of non-separator characters, in order.
pub open spec fn tokens_of(s: Seq<char>) -> Seq<Seq<char>>
    decreases s.len(),
{
    if s.len() == 0 {
        Seq::empty()
    } else {
        let prev = tokens_of(s.drop_last());
        let c = s.last();
        if separator(c) {
            prev
        } else if s.len() >= 2 && !separator(s[s.len() - 2]) {
            prev.update(prev.len() - 1, prev.last().push(c))
        } else {
            prev.push(seq![c])
        }
    }
}

/// Whether `c` is in the punctuation class.
pub fn is_punct(c: char) -> (r: bool)
    ensures
        r == punct_char(c),
{
    let n = c as u32;
    n <= 0x26 || (0x28 <= n && n <= 0x2F) || (0x3A <= n && n <= 0x40) || (0x5B <= n && n
        <= 0x60) || (0x7B <= n && n <= 0x7F)
}

/// Whether `c` is white space.
pub fn is_white_space(c: char) -> (r: bool)
    ensures
        r == white_space(c),
{
    let n = c as u32;
    (0x09 <= n && n <= 0x0D) || n == 0x20 || n == 0x85 || n == 0xA0 || n == 0x1680 || (0x2000
        <= n && n <= 0x200A) || n == 0x2028 || n == 0x2029 || n == 0x202F || n == 0x205F || n
        == 0x3000
}

/// Whether `c` ends a token.
pub fn is_separator(c: char) -> (r: bool)
    ensures
        r == separator(c),
{
    is_punct(c) || is_white_space(c)
}

/// Relies on `str::chars`, collected into a vector: the characters of `s` in order.
#[verifier::external_body]
pub(crate) fn chars_of(s: &str) -> (r: Vec<char>)
    ensures
        r@ == s@,
{
    s.chars().collect()
}

/// Relies on `String`'s `FromIterator<&char>`: the string of the given characters.
#[verifier::external_body]
pub(crate) fn string_of(v: &Vec<char>) -> (r: String)
    ensures
        r@ == v@,
{
    v.iter().collect()
}

proof fn lemma_tokens_nonempty(s: Seq<char>)
    requires
        s.len() > 0,
        !separator(s.last()),
    ensures
        tokens_of(s).len() > 0,
    decreases s.len(),
{
    reveal_with_fuel(tokens_of, 1);
    let prev = tokens_of(s.drop_last());
    if s.len() >= 2 && !separator(s[s.len() - 2]) {
        lemma_tokens_nonempty(s.drop_last());
    }
}

/// Splits `chars` into its tokens, as character vectors.
pub fn token_chars(chars: &Vec<char>) -> (r: Vec<Vec<char>>)
    ensures
        r@.map_values(|t: Vec<char>| t@) == tokens_of(chars@),
{
    let mut toks: Vec<Vec<char>> = Vec::new();
    let mut i: usize = 0;
    while i < chars.len()
        invariant
            i <= chars@.len(),
            toks@.map_values(|t: Vec<char>| t@) == tokens_of(chars@.take(i as int)),
        decreases chars.len() - i,
    {
        let c = chars[i];
        let ghost s = chars@.take(i as int + 1);
        assert(s.drop_last() == chars@.take(i as int));
        if is_separator(c) {
        } else if i >= 1 && !is_separator(chars[i - 1]) {
            proof {
                lemma_tokens_nonempty(chars@.take(i as int));
            }
            let mut last = toks.pop().unwrap();
            last.push(c);
            toks.push(last);
            assert(toks@.map_values(|t: Vec<char>| t@) =~= tokens_of(s));
        } else {
            let single = vec![c];
            assert(single@ =~= seq![c]);
            assert(i >= 1 ==> s[s.len() - 2] == chars@[i - 1]);
            assert(tokens_of(s) == tokens_of(chars@.take(i as int)).push(seq![c]));
            toks.push(single);
            assert(toks@.map_values(|t: Vec<char>| t@) =~= tokens_of(s));
        }
        i = i + 1;
    }
    assert(chars@.take(chars@.len() as int) == chars@);
    toks
}


/// Splits `text` into its tokens: the maximal runs of characters that are
/// neither punctuation nor white space.
pub fn tokenize(text: &str) -> (r: Vec<String>)
    ensures
        r@.map_values(|t: String| t@) == tokens_of(text@),
{
    let chars = chars_of(text);
    let toks = token_chars(&chars);
    let mut r: Vec<String> = Vec::new();
    let mut i: usize = 0;
    while i < toks.len()
        invariant
            i <= toks@.len(),
            toks@.map_values(|t: Vec<char>| t@) == tokens_of(chars@),
            r@.len() == i,
            forall|j: int| 0 <= j < i ==> #[trigger] r@[j]@ == toks@[j]@,
        decreases toks.len() - i,
    {
        let s = string_of(&toks[i]);
        r.push(s);
        i = i + 1;
    }
    assert(r@.map_values(|t: String| t@) =~= toks@.map_values(|t: Vec<char>| t@));
    r
}

/// The canonical (NFD) decomposition of a string.
pub uninterp spec fn nfd_of(s: Seq<char>) -> Seq<char>;

/// The lowercase form of a string.
pub uninterp spec fn lowercase_of(s: Seq<char>) -> Seq<char>;

/// The Porter2 English stem of a word.
pub uninterp spec fn english_stem_of(s: Seq<char>) -> Seq<char>;

/// Relies on `unicode_normalization::UnicodeNormalization::nfd`: the
/// canonical decomposition of `s`, which depends on `s` alone.
#[verifier::external_body]
fn nfd(s: &str) -> (r: String)
    ensures
        r@ == nfd_of(s@),
{
    s.nfd().collect()
}

/// Relies on `str::to_lowercase`: the lowercase form of `s`, which depends on
/// `s` alone.
#[verifier::external_body]
fn lowercase(s: &str) -> (r: String)
    ensures
        r@ == lowercase_of(s@),
{
    s.to_lowercase()
}

/// Relies on `rust_stemmers::Stemmer::stem` with the English algorithm: the
/// stem depends on `s` alone.
#[verifier::external_body]
fn english_stem(s: &str) -> (r: String)
    ensures
        r@ == english_stem_of(s@),
{
    Stemmer::create(Algorithm::English).stem(s).into_owned()
}

/// A combining diacritical mark (U+0300 to U+035F).
pub open spec fn combining_mark(c: char) -> bool {
    0x300 <= c as u32 && c as u32 <= 0x35F
}

/// `s` without its combining diacritical marks.
pub open spec fn strip_marks(s: Seq<char>) -> Seq<char>
    decreases s.len(),
{
    if s.len() == 0 {
        Seq::empty()
    } else if combining_mark(s.last()) {
        strip_marks(s.drop_last())
    } else {
        strip_marks(s.drop_last()).push(s.last())
    }
}

/// `s` without its leading white space.
pub open spec fn trim_start(s: Seq<char>) -> Seq<char>
    decreases s.len(),
{
    if s.len() > 0 && white_space(s[0]) {
        trim_start(s.drop_first())
    } else {
        s
    }
}

/// `s` without its trailing white space.
pub open spec fn trim_end(s: Seq<char>) -> Seq<char>
    decreases s.len(),
{
    if s.len() > 0 && white_space(s.last()) {
        trim_end(s.drop_last())
    } else {
        s
    }
}

/// `s` without surrounding white space.
pub open spec fn trimmed(s: Seq<char>) -> Seq<char> {
    trim_end(trim_start(s))
}

/// The canonical stem of a token: decomposed, stripped of diacritics,
/// lowercased, stemmed, and trimmed.
pub open spec fn stem_of(w: Seq<char>) -> Seq<char> {
    trimmed(english_stem_of(lowercase_of(strip_marks(nfd_of(w)))))
}

/// Drops the combining diacritical marks of `v`.
pub fn remove_marks(v: &Vec<char>) -> (r: Vec<char>)
    ensures
        r@ == strip_marks(v@),
{
    let mut r: Vec<char> = Vec::new();
    let mut i: usize = 0;
    while i < v.len()
        invariant
            i <= v@.len(),
            r@ == strip_marks(v@.take(i as int)),
        decreases v.len() - i,
    {
        let c = v[i];
        assert(v@.take(i as int + 1).drop_last() == v@.take(i as int));
        if !(0x300 <= c as u32 && c as u32 <= 0x35F) {
            r.push(c);
        }
        i = i + 1;
    }
    assert(v@.take(v@.len() as int) == v@);
    r
}

/// Drops the leading and trailing white space of `v`.
pub fn trim_chars(v: &Vec<char>) -> (r: Vec<char>)
    ensures
        r@ == trimmed(v@),
{
    let n = v.len();
    let mut a: usize = 0;
    assert(v@.subrange(0, n as int) == v@);
    while a < n && is_white_space(v[a])
        invariant
            a <= n == v@.len(),
            trim_start(v@) == trim_start(v@.subrange(a as int, n as int)),
        decreases n - a,
    {
        assert(v@.subrange(a as int, n as int).drop_first() == v@.subrange(a as int + 1, n as int));
        a = a + 1;
    }
    assert(trim_start(v@) == v@.subrange(a as int, n as int));
    let mut b: usize = n;
    while b > a && is_white_space(v[b - 1])
        invariant
            a <= b <= n == v@.len(),
            trimmed(v@) == trim_end(v@.subrange(a as int, b as int)),
        decreases b - a,
    {
        assert(v@.subrange(a as int, b as int).drop_last() == v@.subrange(a as int, b - 1));
        b = b - 1;
    }
    let mut r: Vec<char> = Vec::new();
    let mut i: usize = a;
    while i < b
        invariant
            a <= i <= b <= n == v@.len(),
            r@ == v@.subrange(a as int, i as int),
        decreases b - i,
    {
        r.push(v[i]);
        i = i + 1;
        assert(r@ =~= v@.subrange(a as int, i as int));
    }
    r
}

/// The canonical stem of `word`.
pub fn stem_word(word: &str) -> (r: String)
    ensures
        r@ == stem_of(word@),
{
    let decomposed = nfd(word);
    let chars = chars_of(decomposed.as_str());
    let bare = string_of(&remove_marks(&chars));
    let lower = lowercase(bare.as_str());
    let stemmed = english_stem(lower.as_str());
    let trimmed = trim_chars(&chars_of(stemmed.as_str()));
    string_of(&trimmed)
}


/// The tokens whose stem is not empty, in order.
pub open spec fn stemmed_tokens(toks: Seq<Seq<char>>) -> Seq<Seq<char>>
    decreases toks.len(),
{
    if toks.len() == 0 {
        Seq::empty()
    } else if stem_of(toks.last()).len() > 0 {
        stemmed_tokens(toks.drop_last()).push(toks.last())
    } else {
        stemmed_tokens(toks.drop_last())
    }
}

/// The words of `text` that the index records, in order.
pub open spec fn indexed_words(text: Seq<char>) -> Seq<Seq<char>> {
    stemmed_tokens(tokens_of(text))
}

/// The words of `text` that the index records, each with its stem.
pub fn stemmed_words(text: &str) -> (r: (Vec<String>, Vec<String>))
    ensures
        r.0@.map_values(|w: String| w@) == indexed_words(text@),
        r.1@.len() == r.0@.len(),
        forall|k: int| 0 <= k < r.1@.len() ==> #[trigger] r.1@[k]@ == stem_of(r.0@[k]@),
        forall|k: int| 0 <= k < r.1@.len() ==> #[trigger] r.1@[k]@.len() > 0,
{
    let toks = tokenize(text);
    let ghost tv = toks@.map_values(|t: String| t@);
    let mut words: Vec<String> = Vec::new();
    let mut stems: Vec<String> = Vec::new();
    let mut i: usize = 0;
    while i < toks.len()
        invariant
            i <= toks@.len(),
            tv == toks@.map_values(|t: String| t@),
            words@.map_values(|w: String| w@) == stemmed_tokens(tv.take(i as int)),
            stems@.len() == words@.len(),
            forall|k: int| 0 <= k < stems@.len() ==> #[trigger] stems@[k]@ == stem_of(words@[k]@),
            forall|k: int| 0 <= k < stems@.len() ==> #[trigger] stems@[k]@.len() > 0,
        decreases toks.len() - i,
    {
        assert(tv.take(i as int + 1).drop_last() == tv.take(i as int));
        assert(tv.take(i as int + 1).last() == toks@[i as int]@);
        let st = stem_word(toks[i].as_str());
        if !st.as_str().is_empty() {
            words.push(toks[i].clone());
            stems.push(st);
            assert(words@.map_values(|w: String| w@) =~= stemmed_tokens(tv.take(i as int)).push(
                toks@[i as int]@,
            ));
        }
        i = i + 1;
    }
    assert(tv.take(toks@.len() as int) == tv);
    (words, stems)
}

} // verus!
