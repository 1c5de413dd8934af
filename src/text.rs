//! Text primitives shared by the store and the query engine: byte-wise
//! ordering of stored strings, character classes, and word-prefix matching.

use vstd::prelude::*;
use vstd::utf8::encode_utf8;

verus! {

/// The UTF-8 bytes of a text value, the domain in which stored strings are
/// ordered (plain byte-wise comparison, as a binary collation does).
pub open spec fn utf8(s: Seq<char>) -> Seq<u8> {
    encode_utf8(s)
}

/// Lexicographic `a <= b` over bytes.
pub open spec fn bytes_le(a: Seq<u8>, b: Seq<u8>) -> bool
    decreases a.len(),
{
    if a.len() == 0 {
        true
    } else if b.len() == 0 {
        false
    } else if a[0] != b[0] {
        a[0] < b[0]
    } else {
        bytes_le(a.drop_first(), b.drop_first())
    }
}

/// `a <= b` for two strings, compared by their UTF-8 bytes.
pub open spec fn text_le(a: Seq<char>, b: Seq<char>) -> bool {
    bytes_le(utf8(a), utf8(b))
}

proof fn lemma_bytes_le_skip(a: Seq<u8>, b: Seq<u8>, i: int)
    requires
        0 <= i <= a.len(),
        i <= b.len(),
        a.take(i) =~= b.take(i),
    ensures
        bytes_le(a, b) == bytes_le(a.skip(i), b.skip(i)),
    decreases i,
{
    if i > 0 {
        assert(a[0] == a.take(i)[0]);
        assert(b[0] == b.take(i)[0]);
        assert(a.drop_first().take(i - 1) =~= b.drop_first().take(i - 1)) by {
            assert forall|k: int| 0 <= k < i - 1 implies a.drop_first()[k] == b.drop_first()[k] by {
                assert(a.take(i)[k + 1] == b.take(i)[k + 1]);
            }
        }
        lemma_bytes_le_skip(a.drop_first(), b.drop_first(), i - 1);
        assert(a.drop_first().skip(i - 1) =~= a.skip(i));
        assert(b.drop_first().skip(i - 1) =~= b.skip(i));
    } else {
        assert(a.skip(0) =~= a);
        assert(b.skip(0) =~= b);
    }
}

/// Byte-wise order is reflexive.
pub proof fn lemma_bytes_le_refl(a: Seq<u8>)
    ensures
        bytes_le(a, a),
    decreases a.len(),
{
    if a.len() > 0 {
        lemma_bytes_le_refl(a.drop_first());
    }
}

/// Byte-wise order is total.
pub proof fn lemma_bytes_le_total(a: Seq<u8>, b: Seq<u8>)
    ensures
        bytes_le(a, b) || bytes_le(b, a),
    decreases a.len(),
{
    if a.len() > 0 && b.len() > 0 && a[0] == b[0] {
        lemma_bytes_le_total(a.drop_first(), b.drop_first());
    }
}

/// Byte-wise order is transitive.
pub proof fn lemma_bytes_le_trans(a: Seq<u8>, b: Seq<u8>, c: Seq<u8>)
    requires
        bytes_le(a, b),
        bytes_le(b, c),
    ensures
        bytes_le(a, c),
    decreases a.len(),
{
    if a.len() > 0 && b.len() > 0 && c.len() > 0 && a[0] == b[0] && b[0] == c[0] {
        lemma_bytes_le_trans(a.drop_first(), b.drop_first(), c.drop_first());
    }
}

fn slice_le(a: &[u8], b: &[u8]) -> (r: bool)
    ensures
        r == bytes_le(a@, b@),
{
    let mut i: usize = 0;
    while i < a.len() && i < b.len()
        invariant
            0 <= i <= a@.len(),
            i <= b@.len(),
            a@.take(i as int) =~= b@.take(i as int),
        decreases a@.len() - i,
    {
        if a[i] != b[i] {
            proof {
                lemma_bytes_le_skip(a@, b@, i as int);
                assert(a@.skip(i as int)[0] == a@[i as int]);
                assert(b@.skip(i as int)[0] == b@[i as int]);
            }
            return a[i] < b[i];
        }
        i = i + 1;
        assert(a@.take(i as int) =~= b@.take(i as int)) by {
            assert(a@.take(i as int) =~= a@.take(i - 1).push(a@[i - 1]));
            assert(b@.take(i as int) =~= b@.take(i - 1).push(b@[i - 1]));
        }
    }
    proof {
        lemma_bytes_le_skip(a@, b@, i as int);
    }
    i == a.len()
}

/// Compares two strings by their UTF-8 bytes.
pub fn str_le(a: &str, b: &str) -> (r: bool)
    ensures
        r == text_le(a@, b@),
{
    slice_le(a.as_bytes(), b.as_bytes())
}

/// Whether `c` has the Unicode `White_Space` property.
pub uninterp spec fn white_space(c: char) -> bool;

/// Whether `c` has the Unicode `Alphabetic` or `Numeric` property.
pub uninterp spec fn alphanumeric(c: char) -> bool;

/// Relies on `char::is_whitespace`, which reports the Unicode `White_Space`
/// property of its argument and nothing else.
#[verifier::external_body]
pub(crate) fn is_space(c: char) -> (r: bool)
    ensures
        r == white_space(c),
{
    c.is_whitespace()
}

/// Relies on `char::is_alphanumeric`, which reports whether its argument has
/// the Unicode `Alphabetic` or `Numeric` property and nothing else.
#[verifier::external_body]
pub(crate) fn is_word_char(c: char) -> (r: bool)
    ensures
        r == alphanumeric(c),
{
    c.is_alphanumeric()
}

/// Whether two strings hold the same characters.
pub fn same_text(a: &str, b: &str) -> (r: bool)
    ensures
        r == (a@ == b@),
{
    let n = a.unicode_len();
    if n != b.unicode_len() {
        return false;
    }
    let mut i: usize = 0;
    while i < n
        invariant
            n == a@.len(),
            n == b@.len(),
            i <= n,
            forall|k: int| 0 <= k < i ==> a@[k] == b@[k],
        decreases n - i,
    {
        if a.get_char(i) != b.get_char(i) {
            return false;
        }
        i = i + 1;
    }
    assert(a@ =~= b@);
    true
}

/// The lower-case form of a text, by Unicode's case mapping.
pub uninterp spec fn lower_of(s: Seq<char>) -> Seq<char>;

/// Relies on `str::to_lowercase`: Unicode's lower-case mapping of each
/// character, which depends on the text alone.
#[verifier::external_body]
pub(crate) fn lowercase(s: &str) -> (r: String)
    ensures
        r@ == lower_of(s@),
{
    s.to_lowercase()
}

/// A word of `t` begins at `i`: `i` is the start of the text or follows a
/// character that is not alphanumeric.
pub open spec fn word_start(t: Seq<char>, i: int) -> bool {
    i == 0 || !alphanumeric(t[i - 1])
}

/// `tok` occurs in `t` at `i`.
pub open spec fn occurs_at(t: Seq<char>, tok: Seq<char>, i: int) -> bool {
    &&& 0 <= i
    &&& i + tok.len() <= t.len()
    &&& forall|k: int| 0 <= k < tok.len() ==> t[i + k] == #[trigger] tok[k]
}

/// Some word of `t` starts with `tok`.
pub open spec fn has_word_prefix(t: Seq<char>, tok: Seq<char>) -> bool {
    exists|i: int| word_start(t, i) && #[trigger] occurs_at(t, tok, i)
}

/// The characters of `s`, one element each.
pub fn chars_of(s: &str) -> (r: Vec<char>)
    ensures
        r@ == s@,
{
    let n = s.unicode_len();
    let mut r: Vec<char> = Vec::new();
    let mut i: usize = 0;
    while i < n
        invariant
            n == s@.len(),
            i <= n,
            r@ =~= s@.take(i as int),
        decreases n - i,
    {
        r.push(s.get_char(i));
        i = i + 1;
        assert(r@ =~= s@.take(i as int));
    }
    r
}

fn occurs_at_exec(t: &Vec<char>, q: &Vec<char>, s: usize, e: usize, i: usize) -> (r: bool)
    requires
        s <= e <= q@.len(),
        i + (e - s) <= t@.len(),
    ensures
        r == occurs_at(t@, q@.subrange(s as int, e as int), i as int),
{
    let ghost tok = q@.subrange(s as int, e as int);
    let t_len = t.len();
    assert(t_len == t@.len());
    let mut k: usize = 0;
    while k < e - s
        invariant
            s <= e <= q@.len(),
            i + (e - s) <= t@.len(),
            t@.len() <= usize::MAX,
            k <= e - s,
            tok == q@.subrange(s as int, e as int),
            forall|j: int| 0 <= j < k ==> t@[i + j] == #[trigger] tok[j],
        decreases e - s - k,
    {
        assert(i + k < t@.len());
        if t[i + k] != q[s + k] {
            assert(tok[k as int] == q@[s + k]);
            return false;
        }
        assert(tok[k as int] == q@[s + k]);
        k = k + 1;
    }
    true
}

/// Whether some word of `t` starts with the token `q[s..e]`.
pub(crate) fn word_prefix_in(t: &Vec<char>, q: &Vec<char>, s: usize, e: usize) -> (r: bool)
    requires
        s <= e <= q@.len(),
    ensures
        r == has_word_prefix(t@, q@.subrange(s as int, e as int)),
{
    let ghost tok = q@.subrange(s as int, e as int);
    let len = e - s;
    if len > t.len() {
        assert forall|i: int| !(word_start(t@, i) && #[trigger] occurs_at(t@, tok, i)) by {}
        return false;
    }
    if len == 0 {
        assert(occurs_at(t@, tok, 0));
        return true;
    }
    let last = t.len() - len;
    let mut i: usize = 0;
    while i <= last
        invariant
            s <= e <= q@.len(),
            len == e - s,
            len >= 1,
            t@.len() <= usize::MAX,
            last == t@.len() - len,
            i <= last + 1,
            tok == q@.subrange(s as int, e as int),
            forall|j: int| 0 <= j < i ==> !(word_start(t@, j) && #[trigger] occurs_at(t@, tok, j)),
        decreases last + 1 - i,
    {
        let starts = i == 0 || !is_word_char(t[i - 1]);
        if starts && occurs_at_exec(t, q, s, e, i) {
            assert(word_start(t@, i as int) && occurs_at(t@, tok, i as int));
            return true;
        }
        i = i + 1;
    }
    assert forall|j: int| !(word_start(t@, j) && #[trigger] occurs_at(t@, tok, j)) by {
        if 0 <= j && j < i {
        }
    }
    false
}

} // verus!
