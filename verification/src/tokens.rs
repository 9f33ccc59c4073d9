//! Token normalization: the one rule by which both document content and
//! queries are cut into comparison tokens.

use vstd::prelude::*;

verus! {

/// A normalized token.
pub type Token = Vec<char>;

/// The punctuation characters that normalization removes:
/// `(` `)` `,` `.` `?` `!` `;` `:` and `"`.
pub open spec fn is_punctuation(c: char) -> bool {
    c == '(' || c == ')' || c == ',' || c == '.' || c == '?' || c == '!' || c == ';' || c == ':'
        || c == '"'
}

/// The characters that separate tokens: those with the Unicode property
/// `White_Space`.
pub open spec fn is_whitespace(c: char) -> bool {
    let u = c as u32;
    (0x09 <= u <= 0x0d) || u == 0x20 || u == 0x85 || u == 0xa0 || u == 0x1680 || (0x2000 <= u
        <= 0x200a) || u == 0x2028 || u == 0x2029 || u == 0x202f || u == 0x205f || u == 0x3000
}

/// The lowercase mapping of one character, as `char::to_lowercase` yields it.
pub uninterp spec fn lowercase_mapping(c: char) -> Seq<char>;

/// The text without its punctuation, every remaining character replaced by
/// its lowercase mapping.
pub open spec fn folded(text: Seq<char>) -> Seq<char>
    decreases text.len(),
{
    if text.len() == 0 {
        Seq::empty()
    } else if is_punctuation(text.last()) {
        folded(text.drop_last())
    } else {
        folded(text.drop_last()) + lowercase_mapping(text.last())
    }
}

/// The run of non-whitespace characters that ends `s`; empty where `s` is
/// empty or ends in whitespace.
pub open spec fn open_word(s: Seq<char>) -> Seq<char>
    decreases s.len(),
{
    if s.len() == 0 || is_whitespace(s.last()) {
        Seq::empty()
    } else {
        open_word(s.drop_last()).push(s.last())
    }
}

/// The maximal runs of non-whitespace characters of `s` that a whitespace
/// character follows, in order.
pub open spec fn closed_words(s: Seq<char>) -> Seq<Seq<char>>
    decreases s.len(),
{
    if s.len() == 0 {
        Seq::empty()
    } else if is_whitespace(s.last()) && open_word(s.drop_last()).len() > 0 {
        closed_words(s.drop_last()).push(open_word(s.drop_last()))
    } else {
        closed_words(s.drop_last())
    }
}

/// The maximal runs of non-whitespace characters of `s`, in order.
pub open spec fn words(s: Seq<char>) -> Seq<Seq<char>> {
    if open_word(s).len() > 0 {
        closed_words(s).push(open_word(s))
    } else {
        closed_words(s)
    }
}

/// The tokens of a text: punctuation is removed, the rest is lowercased, and
/// what remains is split on whitespace.
pub open spec fn tokens_of(text: Seq<char>) -> Seq<Seq<char>> {
    words(folded(text))
}

/// The character sequences that a vector of tokens holds.
pub open spec fn token_views(tokens: Seq<Token>) -> Seq<Seq<char>> {
    tokens.map_values(|t: Token| t@)
}

/// Whether `c` is one of the punctuation characters that normalization removes.
pub fn punctuation(c: char) -> (r: bool)
    ensures
        r == is_punctuation(c),
{
    c == '(' || c == ')' || c == ',' || c == '.' || c == '?' || c == '!' || c == ';' || c == ':'
        || c == '"'
}

/// Whether `c` separates tokens.
pub fn whitespace(c: char) -> (r: bool)
    ensures
        r == is_whitespace(c),
{
    let u: u32 = c as u32;
    (0x09 <= u && u <= 0x0d) || u == 0x20 || u == 0x85 || u == 0xa0 || u == 0x1680 || (0x2000 <= u
        && u <= 0x200a) || u == 0x2028 || u == 0x2029 || u == 0x202f || u == 0x205f || u == 0x3000
}

/// `char::to_lowercase`: the characters of the lowercase mapping of `c`, in
/// order. The contract only gives the result its name.
#[verifier::external_body]
fn lowercase(c: char) -> (r: Vec<char>)
    ensures
        r@ == lowercase_mapping(c),
{
    c.to_lowercase().collect()
}

/// What one more character does to the words of a text.
proof fn lemma_words_push(s: Seq<char>, c: char)
    ensures
        is_whitespace(c) ==> open_word(s.push(c)) == Seq::<char>::empty() && closed_words(
            s.push(c),
        ) == words(s),
        !is_whitespace(c) ==> open_word(s.push(c)) == open_word(s).push(c) && closed_words(
            s.push(c),
        ) == closed_words(s),
{
    assert(s.push(c).drop_last() =~= s);
}

/// What one more character does to the folded text.
proof fn lemma_folded_push(text: Seq<char>, c: char)
    ensures
        folded(text.push(c)) == if is_punctuation(c) {
            folded(text)
        } else {
            folded(text) + lowercase_mapping(c)
        },
{
    assert(text.push(c).drop_last() =~= text);
}

/// Cuts a text into its tokens.
pub fn normalize(text: &str) -> (tokens: Vec<Token>)
    ensures
        token_views(tokens@) == tokens_of(text@),
{
    let mut done: Vec<Token> = Vec::new();
    let mut cur: Token = Vec::new();
    let ghost mut seen: Seq<char> = Seq::empty();
    assert(token_views(done@) =~= closed_words(folded(seen)));
    assert(seen =~= text@.take(0));
    for c in it: text.chars()
        invariant
            it.seq() == text@,
            seen == text@.take(it.index()),
            token_views(done@) == closed_words(folded(seen)),
            cur@ == open_word(folded(seen)),
    {
        let ghost base = folded(seen);
        proof {
            lemma_folded_push(seen, c);
            assert(seen.push(c) =~= text@.take(it.index() + 1));
            seen = seen.push(c);
        }
        if !punctuation(c) {
            let lower = lowercase(c);
            let mut j: usize = 0;
            assert(base + lower@.take(0) =~= base);
            while j < lower.len()
                invariant
                    j <= lower.len(),
                    token_views(done@) == closed_words(base + lower@.take(j as int)),
                    cur@ == open_word(base + lower@.take(j as int)),
                decreases lower.len() - j,
            {
                let l = lower[j];
                proof {
                    lemma_words_push(base + lower@.take(j as int), l);
                    assert((base + lower@.take(j as int)).push(l) =~= base + lower@.take(
                        j + 1 as int,
                    ));
                }
                if whitespace(l) {
                    if cur.len() > 0 {
                        assert(token_views(done@.push(cur)) =~= token_views(done@).push(cur@));
                        done.push(cur);
                        cur = Vec::new();
                    }
                } else {
                    cur.push(l);
                }
                j += 1;
            }
            assert(lower@.take(j as int) =~= lower@);
        }
    }
    assert(seen =~= text@);
    if cur.len() > 0 {
        assert(token_views(done@.push(cur)) =~= token_views(done@).push(cur@));
        done.push(cur);
    }
    done
}

} // verus!
