//! Token extraction. A document's text is lowercased and split into maximal
//! runs of word characters: Cyrillic letters, Latin letters, digits and the
//! underscore. Everything else separates tokens.
use vstd::prelude::*;

verus! {

use vstd::string::StrSliceExecFns;

/// Whether `c` belongs to the token alphabet: Cyrillic letters
/// (U+0410..U+044F plus U+0401/U+0451), Latin letters, ASCII digits, or `_`.
pub open spec fn is_word_char(c: char) -> bool {
    let u = c as u32;
    (0x30 <= u && u <= 0x39)  // '0'..'9'
    || (0x41 <= u && u <= 0x5A)  // 'A'..'Z'
    || (0x61 <= u && u <= 0x7A)  // 'a'..'z'
    || u == 0x5F  // '_'
    || (0x410 <= u && u <= 0x44F)  // Cyrillic A..ya, upper and lower
    || u == 0x401 || u == 0x451  // Io, io
}

/// Length of the maximal word-character run at the start of `s`.
pub open spec fn run_len(s: Seq<char>) -> nat
    decreases s.len(),
{
    if s.len() > 0 && is_word_char(s[0]) {
        1 + run_len(s.drop_first())
    } else {
        0
    }
}

pub proof fn lemma_run_len(s: Seq<char>)
    ensures
        run_len(s) <= s.len(),
        forall|k: int| 0 <= k < run_len(s) ==> is_word_char(#[trigger] s[k]),
        run_len(s) < s.len() ==> !is_word_char(s[run_len(s) as int]),
    decreases s.len(),
{
    if s.len() > 0 && is_word_char(s[0]) {
        lemma_run_len(s.drop_first());
        assert forall|k: int| 0 <= k < run_len(s) implies is_word_char(#[trigger] s[k]) by {
            if k > 0 {
                assert(s.drop_first()[k - 1] == s[k]);
            }
        }
        if run_len(s) < s.len() {
            assert(s.drop_first()[run_len(s) as int - 1] == s[run_len(s) as int]);
        }
    }
}

/// A run's length is pinned down by its characters: if the first `m` characters
/// are word characters and the run stops there, the maximal run has length `m`.
pub proof fn lemma_run_len_is(s: Seq<char>, m: int)
    requires
        0 <= m <= s.len(),
        forall|k: int| 0 <= k < m ==> is_word_char(#[trigger] s[k]),
        m == s.len() || !is_word_char(s[m]),
    ensures
        run_len(s) == m,
    decreases s.len(),
{
    if m == 0 {
    } else {
        assert(is_word_char(s[0]));
        assert forall|k: int| 0 <= k < m - 1 implies is_word_char(#[trigger] s.drop_first()[k]) by {
            assert(s.drop_first()[k] == s[k + 1]);
        }
        if m - 1 < s.drop_first().len() {
            assert(s.drop_first()[m - 1] == s[m]);
        }
        lemma_run_len_is(s.drop_first(), m - 1);
    }
}

/// The tokens of `s`: its maximal runs of word characters, in order.
pub open spec fn tokens_of(s: Seq<char>) -> Seq<Seq<char>>
    decreases s.len(),
    when s.len() >= 0
    via tokens_of_decreases
{
    if s.len() == 0 {
        Seq::empty()
    } else if !is_word_char(s[0]) {
        tokens_of(s.drop_first())
    } else {
        seq![s.take(run_len(s) as int)] + tokens_of(s.skip(run_len(s) as int))
    }
}

#[via_fn]
proof fn tokens_of_decreases(s: Seq<char>) {
    if s.len() > 0 && is_word_char(s[0]) {
        lemma_run_len(s);
    }
}

/// Every token is a non-empty run of word characters.
pub proof fn lemma_tokens_shape(s: Seq<char>)
    ensures
        forall|i: int|
            0 <= i < tokens_of(s).len() ==> (#[trigger] tokens_of(s)[i]).len() >= 1,
    decreases s.len(),
{
    if s.len() == 0 {
    } else if !is_word_char(s[0]) {
        lemma_tokens_shape(s.drop_first());
        assert(tokens_of(s) == tokens_of(s.drop_first()));
    } else {
        lemma_run_len(s);
        lemma_tokens_shape(s.skip(run_len(s) as int));
        assert(tokens_of(s) == seq![s.take(run_len(s) as int)] + tokens_of(
            s.skip(run_len(s) as int),
        ));
        assert(run_len(s) >= 1);
        assert forall|i: int|
            0 <= i < tokens_of(s).len() implies (#[trigger] tokens_of(s)[i]).len() >= 1 by {
            if i == 0 {
                assert(tokens_of(s)[0] == s.take(run_len(s) as int));
            } else {
                assert(tokens_of(s)[i] == tokens_of(s.skip(run_len(s) as int))[i - 1]);
            }
        }
    }
}

/// What `str::to_lowercase` returns for a given character sequence.
pub uninterp spec fn lower_of(s: Seq<char>) -> Seq<char>;

/// Relies on `str::to_lowercase`: the Unicode lowercasing of a string is a
/// deterministic function of its characters alone, and is empty only for an
/// empty input.
#[verifier::external_body]
pub(crate) fn lowercase(s: &str) -> (r: String)
    ensures
        r@ == lower_of(s@),
        s@.len() == 0 ==> r@.len() == 0,
{
    s.to_lowercase()
}

/// Relies on `String`'s `FromIterator<char>`: collecting characters yields
/// the string with exactly those characters.
#[verifier::external_body]
pub(crate) fn string_from_chars(cs: &Vec<char>) -> (r: String)
    ensures
        r@ == cs@,
{
    cs.iter().collect()
}

/// Whether `c` belongs to the token alphabet.
pub fn word_char(c: char) -> (r: bool)
    ensures
        r == is_word_char(c),
{
    let u = c as u32;
    (0x30 <= u && u <= 0x39) || (0x41 <= u && u <= 0x5A) || (0x61 <= u && u <= 0x7A) || u == 0x5F
        || (0x410 <= u && u <= 0x44F) || u == 0x401 || u == 0x451
}

/// Compares two strings character for character.
pub fn strings_equal(a: &String, b: &String) -> (r: bool)
    ensures
        r == (a@ == b@),
{
    let ae = a.as_str();
    let be = b.as_str();
    let an = ae.unicode_len();
    let bn = be.unicode_len();
    if an != bn {
        proof {
            assert(a@.len() != b@.len());
        }
        return false;
    }
    let mut i: usize = 0;
    while i < an
        invariant
            i <= an,
            an == a@.len(),
            an == b@.len(),
            ae@ == a@,
            be@ == b@,
            forall|k: int| 0 <= k < i ==> a@[k] == b@[k],
        decreases an - i,
    {
        if ae.get_char(i) != be.get_char(i) {
            proof {
                assert(a@[i as int] != b@[i as int]);
            }
            return false;
        }
        i = i + 1;
    }
    proof {
        assert(a@ =~= b@);
    }
    true
}

/// Copies the characters of `s` out into a vector.
pub fn str_chars(s: &str) -> (r: Vec<char>)
    ensures
        r@ == s@,
{
    let n = s.unicode_len();
    let mut r: Vec<char> = Vec::new();
    let mut i: usize = 0;
    while i < n
        invariant
            i <= n,
            n == s@.len(),
            r@ =~= s@.take(i as int),
        decreases n - i,
    {
        r.push(s.get_char(i));
        i = i + 1;
        assert(r@ =~= s@.take(i as int));
    }
    assert(r@ =~= s@);
    r
}

/// Splits `s` into its maximal runs of word characters.
pub fn tokenize(s: &str) -> (tokens: Vec<String>)
    ensures
        tokens.deep_view() == tokens_of(s@),
{
    let chars = str_chars(s);
    let n = chars.len();
    let mut tokens: Vec<String> = Vec::new();
    let mut i: usize = 0;
    proof {
        assert(s@.skip(0) =~= s@);
        assert(tokens.deep_view() =~= Seq::<Seq<char>>::empty());
        assert(Seq::<Seq<char>>::empty() + tokens_of(s@) =~= tokens_of(s@));
    }
    while i < n
        invariant
            i <= n,
            n == s@.len(),
            chars@ == s@,
            tokens_of(s@) == tokens.deep_view() + tokens_of(s@.skip(i as int)),
        decreases n - i,
    {
        if !word_char(chars[i]) {
            proof {
                assert(s@.skip(i as int)[0] == s@[i as int]);
                assert(s@.skip(i as int).drop_first() =~= s@.skip(i as int + 1));
            }
            i = i + 1;
        } else {
            let ghost rest = s@.skip(i as int);
            let start = i;
            let mut j = i + 1;
            while j < n
                invariant
                    start < j <= n,
                    n == s@.len(),
                    chars@ == s@,
                    forall|k: int| start <= k < j ==> is_word_char(#[trigger] s@[k]),
                ensures
                    start < j <= n,
                    forall|k: int| start <= k < j ==> is_word_char(#[trigger] s@[k]),
                    j == n || !is_word_char(s@[j as int]),
                decreases n - j,
            {
                if !word_char(chars[j]) {
                    break ;
                }
                j = j + 1;
            }
            proof {
                assert forall|k: int| 0 <= k < j - start implies is_word_char(
                    #[trigger] rest[k],
                ) by {
                    assert(rest[k] == s@[start + k]);
                }
                if j < n {
                    assert(rest[j - start] == s@[j as int]);
                }
                lemma_run_len_is(rest, j - start);
            }
            let mut sub: Vec<char> = Vec::new();
            let mut k = start;
            while k < j
                invariant
                    start <= k <= j <= n,
                    chars@ == s@,
                    n == s@.len(),
                    sub@ =~= s@.subrange(start as int, k as int),
                decreases j - k,
            {
                sub.push(chars[k]);
                k = k + 1;
                assert(sub@ =~= s@.subrange(start as int, k as int));
            }
            let tok = string_from_chars(&sub);
            let ghost old_tokens = tokens.deep_view();
            proof {
                assert(rest[0] == s@[start as int]);
                assert(tokens_of(rest) == seq![rest.take((j - start) as int)] + tokens_of(
                    rest.skip((j - start) as int),
                ));
                assert(rest.take((j - start) as int) =~= s@.subrange(start as int, j as int));
                assert(rest.skip((j - start) as int) =~= s@.skip(j as int));
            }
            tokens.push(tok);
            proof {
                assert(tokens.deep_view() =~= old_tokens.push(tok@));
                assert(old_tokens.push(tok@) + tokens_of(s@.skip(j as int)) =~= old_tokens + (
                seq![tok@] + tokens_of(s@.skip(j as int))));
            }
            i = j;
        }
    }
    proof {
        assert(s@.skip(i as int) =~= Seq::<char>::empty());
        assert(tokens_of(Seq::<char>::empty()) == Seq::<Seq<char>>::empty());
        assert(tokens.deep_view() + Seq::<Seq<char>>::empty() =~= tokens.deep_view());
    }
    tokens
}

} // verus!
