//! Character-level text processing: substring containment for the fallback
//! scan, and tokenization for the lexical index.
//!
//! The index tokenizer takes maximal runs of token characters — ASCII
//! letters, ASCII digits, and every character beyond ASCII — as tokens.
//! Scripts that separate words with spaces or punctuation therefore index
//! well; scripts without such boundaries collapse into one long token, which
//! is exactly why keyword search keeps a substring fallback.

use vstd::prelude::*;
use vstd::string::StrSliceExecFns;

verus! {

/// The characters of a string, as an indexable vector.
pub fn chars_of(s: &str) -> (r: Vec<char>)
    ensures
        r@ == s@,
{
    let n = s.unicode_len();
    let mut r: Vec<char> = Vec::new();
    let mut i: usize = 0;
    while i < n
        invariant
            0 <= i <= n,
            n == s@.len(),
            r@ == s@.take(i as int),
        decreases n - i,
    {
        let c = s.get_char(i);
        r.push(c);
        proof {
            assert(r@ =~= s@.take(i as int + 1));
        }
        i = i + 1;
    }
    proof {
        assert(s@.take(n as int) =~= s@);
    }
    r
}

/// Whether two strings hold the same characters.
pub fn str_eq(a: &str, b: &str) -> (r: bool)
    ensures
        r == (a@ == b@),
{
    let na = a.unicode_len();
    let nb = b.unicode_len();
    if na != nb {
        proof {
            assert(a@ != b@);
        }
        return false;
    }
    let mut i: usize = 0;
    while i < na
        invariant
            0 <= i <= na,
            na == a@.len() == b@.len(),
            forall|j: int| 0 <= j < i ==> a@[j] == b@[j],
        decreases na - i,
    {
        if a.get_char(i) != b.get_char(i) {
            return false;
        }
        i = i + 1;
    }
    proof {
        assert(a@ =~= b@);
    }
    true
}

/// `pat` occurs contiguously somewhere in `text`.
pub open spec fn is_substring(pat: Seq<char>, text: Seq<char>) -> bool {
    exists|k: int|
        0 <= k <= text.len() - pat.len() && #[trigger] text.subrange(k, k + pat.len() as int)
            == pat
}

/// The characters of `pat` stand at position `k` of `text`.
fn matches_at(text: &[char], pat: &[char], k: usize) -> (b: bool)
    requires
        k + pat@.len() <= text@.len(),
    ensures
        b == (text@.subrange(k as int, k as int + pat@.len() as int) == pat@),
{
    let plen = pat.len();
    let tlen = text.len();
    let mut i: usize = 0;
    while i < plen
        invariant
            0 <= i <= plen,
            plen == pat@.len(),
            tlen == text@.len(),
            k + plen <= tlen,
            forall|j: int| 0 <= j < i ==> text@[k + j] == pat@[j],
        decreases plen - i,
    {
        if text[k + i] != pat[i] {
            proof {
                assert(text@.subrange(k as int, k as int + plen as int)[i as int]
                    == text@[k + i]);
            }
            return false;
        }
        i = i + 1;
    }
    proof {
        assert(text@.subrange(k as int, k as int + plen as int) =~= pat@);
    }
    true
}

/// Whether `text` contains `pat` as a contiguous run; the empty pattern is
/// contained in everything.
pub fn contains_chars(text: &[char], pat: &[char]) -> (b: bool)
    ensures
        b == is_substring(pat@, text@),
{
    if pat.len() > text.len() {
        return false;
    }
    let kmax = text.len() - pat.len();
    let mut k: usize = 0;
    loop
        invariant
            pat@.len() <= text@.len(),
            kmax == text@.len() - pat@.len(),
            0 <= k <= kmax,
            forall|j: int|
                0 <= j < k ==> #[trigger] text@.subrange(j, j + pat@.len() as int) != pat@,
        decreases kmax - k,
    {
        if matches_at(text, pat, k) {
            return true;
        }
        if k == kmax {
            assert(forall|j: int|
                0 <= j <= kmax ==> #[trigger] text@.subrange(j, j + pat@.len() as int)
                    != pat@);
            return false;
        }
        k = k + 1;
    }
}

/// Characters the tokenizer keeps inside a token: ASCII alphanumerics and
/// everything beyond ASCII.
pub open spec fn spec_is_token_char(c: char) -> bool {
    (48 <= c as u32 <= 57) || (65 <= c as u32 <= 90) || (97 <= c as u32 <= 122) || (
    c as u32 >= 128)
}

fn is_token_char(c: char) -> (b: bool)
    ensures
        b == spec_is_token_char(c),
{
    let u = c as u32;
    (48 <= u && u <= 57) || (65 <= u && u <= 90) || (97 <= u && u <= 122) || u >= 128
}

/// The tokens still to be produced when the scan stands at position `i`
/// with the partial token `cur` in hand.
pub open spec fn spec_tokens_from(s: Seq<char>, i: int, cur: Seq<char>) -> Seq<Seq<char>>
    decreases s.len() - i,
{
    if i < 0 || i >= s.len() {
        if cur.len() > 0 {
            seq![cur]
        } else {
            Seq::empty()
        }
    } else if spec_is_token_char(s[i]) {
        spec_tokens_from(s, i + 1, cur.push(s[i]))
    } else if cur.len() > 0 {
        seq![cur] + spec_tokens_from(s, i + 1, Seq::empty())
    } else {
        spec_tokens_from(s, i + 1, Seq::empty())
    }
}

/// The maximal runs of token characters in `s`, in order.
pub open spec fn spec_tokenize(s: Seq<char>) -> Seq<Seq<char>> {
    spec_tokens_from(s, 0, Seq::empty())
}

/// Splits `text` into its tokens: the maximal runs of token characters.
pub fn tokenize_chars(text: &[char]) -> (toks: Vec<Vec<char>>)
    ensures
        toks.deep_view() == spec_tokenize(text@),
{
    let n = text.len();
    let mut toks: Vec<Vec<char>> = Vec::new();
    let mut cur: Vec<char> = Vec::new();
    let mut i: usize = 0;
    while i < n
        invariant
            0 <= i <= n,
            n == text@.len(),
            toks.deep_view() + spec_tokens_from(text@, i as int, cur@)
                == spec_tokenize(text@),
        decreases n - i,
    {
        let ghost pre_toks = toks.deep_view();
        let ghost pre_cur = cur@;
        let c = text[i];
        if is_token_char(c) {
            cur.push(c);
            proof {
                assert(cur@ == pre_cur.push(text@[i as int]));
                assert(spec_tokens_from(text@, i as int, pre_cur)
                    == spec_tokens_from(text@, i as int + 1, cur@));
                assert(toks.deep_view() + spec_tokens_from(text@, i as int + 1, cur@)
                    == spec_tokenize(text@));
            }
        } else {
            if cur.len() > 0 {
                toks.push(cur);
                cur = Vec::new();
                proof {
                    assert(spec_tokens_from(text@, i as int, pre_cur)
                        == seq![pre_cur] + spec_tokens_from(text@, i as int + 1, Seq::empty()));
                    assert(toks.deep_view() =~~= pre_toks + seq![pre_cur]);
                    assert(toks.deep_view() + spec_tokens_from(text@, i as int + 1, cur@)
                        =~~= pre_toks + (seq![pre_cur] + spec_tokens_from(
                        text@,
                        i as int + 1,
                        Seq::empty(),
                    )));
                    assert(toks.deep_view() + spec_tokens_from(text@, i as int + 1, cur@)
                        == spec_tokenize(text@));
                }
            } else {
                proof {
                    assert(pre_cur =~= Seq::empty());
                    assert(spec_tokens_from(text@, i as int, pre_cur)
                        == spec_tokens_from(text@, i as int + 1, cur@));
                    assert(toks.deep_view() + spec_tokens_from(text@, i as int + 1, cur@)
                        == spec_tokenize(text@));
                }
            }
        }
        i = i + 1;
    }
    if cur.len() > 0 {
        let ghost pre_toks = toks.deep_view();
        let ghost pre_cur = cur@;
        toks.push(cur);
        proof {
            assert(toks.deep_view() =~~= pre_toks + seq![pre_cur]);
        }
    } else {
        proof {
            assert(toks.deep_view() + spec_tokens_from(text@, n as int, cur@)
                =~~= toks.deep_view());
        }
    }
    toks
}

/// How many tokens of `toks` equal `t`.
pub open spec fn spec_count_token(toks: Seq<Seq<char>>, t: Seq<char>) -> nat
    decreases toks.len(),
{
    if toks.len() == 0 {
        0
    } else {
        spec_count_token(toks.drop_last(), t) + if toks.last() == t {
            1nat
        } else {
            0nat
        }
    }
}

/// The count of a token never exceeds the number of tokens.
pub proof fn lemma_count_token_le(toks: Seq<Seq<char>>, t: Seq<char>)
    ensures
        spec_count_token(toks, t) <= toks.len(),
    decreases toks.len(),
{
    if toks.len() > 0 {
        lemma_count_token_le(toks.drop_last(), t);
    }
}

/// Whether two character vectors hold the same characters.
fn chars_eq(a: &[char], b: &[char]) -> (r: bool)
    ensures
        r == (a@ == b@),
{
    if a.len() != b.len() {
        proof {
            assert(a@ != b@);
        }
        return false;
    }
    let n = a.len();
    let mut i: usize = 0;
    while i < n
        invariant
            0 <= i <= n,
            n == a@.len() == b@.len(),
            forall|j: int| 0 <= j < i ==> a@[j] == b@[j],
        decreases n - i,
    {
        if a[i] != b[i] {
            return false;
        }
        i = i + 1;
    }
    proof {
        assert(a@ =~= b@);
    }
    true
}

/// Counts the tokens of `toks` that equal `t`.
pub fn count_token(toks: &Vec<Vec<char>>, t: &[char]) -> (c: usize)
    ensures
        c == spec_count_token(toks.deep_view(), t@),
        c <= toks@.len(),
{
    let n = toks.len();
    let mut c: usize = 0;
    let mut i: usize = 0;
    while i < n
        invariant
            0 <= i <= n,
            n == toks@.len(),
            c <= i,
            c == spec_count_token(toks.deep_view().take(i as int), t@),
        decreases n - i,
    {
        let ghost pre = toks.deep_view().take(i as int);
        proof {
            assert(toks.deep_view()[i as int] =~= toks@[i as int]@);
        }
        if chars_eq(toks[i].as_slice(), t) {
            c = c + 1;
        }
        proof {
            assert(toks.deep_view().take(i as int + 1).drop_last() =~= pre);
            assert(toks.deep_view().take(i as int + 1).last() == toks.deep_view()[i as int]);
        }
        i = i + 1;
    }
    proof {
        assert(toks.deep_view().take(n as int) =~= toks.deep_view());
    }
    c
}

} // verus!
