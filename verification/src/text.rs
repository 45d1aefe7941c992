//! Character-level helpers for building and inspecting strings.

use vstd::prelude::*;
use vstd::string::StrSliceExecFns;
use vstd::utf8::{decode_utf8, valid_utf8};

verus! {

/// Appends `c` to `s`.
///
/// Trusted: calls std's `String::push`, which the std documentation
/// describes as appending the given char to the end of the string.
#[verifier::external_body]
pub(crate) fn push_char(s: &mut String, c: char)
    ensures
        final(s)@ == old(s)@.push(c),
{
    s.push(c);
}

/// The ASCII digit for `d < 10`.
pub open spec fn digit_char(d: nat) -> char {
    (48 + d) as char
}

/// Decimal notation of `n`, most significant digit first, without leading zeros.
pub open spec fn decimal(n: nat) -> Seq<char>
    decreases n,
{
    if n < 10 {
        seq![digit_char(n)]
    } else {
        decimal(n / 10).push(digit_char(n % 10))
    }
}

pub(crate) fn digit(d: u64) -> (c: char)
    requires
        d < 10,
    ensures
        c == digit_char(d as nat),
{
    let b: u8 = 48 + (d as u8);
    b as char
}

/// Appends the decimal notation of `n` to `s`.
pub fn push_decimal(s: &mut String, n: u64)
    ensures
        final(s)@ == old(s)@ + decimal(n as nat),
{
    let mut m: u64 = n;
    let mut rev: Vec<char> = Vec::new();
    let ghost mut low: Seq<char> = Seq::empty();
    loop
        invariant_except_break
            m > 0 || rev.len() == 0,
            decimal(n as nat) == decimal(m as nat) + low,
        invariant
            low.len() == rev.len(),
            forall|i: int| 0 <= i < rev.len() ==> #[trigger] rev@[i] == low[low.len() - 1 - i],
        ensures
            decimal(n as nat) == low,
        decreases m,
    {
        let d = m % 10;
        let c = digit(d);
        proof {
            if m >= 10 {
                assert(decimal(m as nat) == decimal((m / 10) as nat).push(c));
                assert(decimal((m / 10) as nat).push(c) + low =~= decimal((m / 10) as nat) + (
                seq![c] + low));
            } else {
                assert(decimal(m as nat) =~= seq![c]);
            }
            low = seq![c] + low;
        }
        rev.push(c);
        m = m / 10;
        if m == 0 {
            break;
        }
    }
    let ghost start = s@;
    let mut k: usize = rev.len();
    while k > 0
        invariant
            k <= rev.len(),
            low.len() == rev.len(),
            forall|i: int| 0 <= i < rev.len() ==> #[trigger] rev@[i] == low[low.len() - 1 - i],
            s@ == start + low.take(rev.len() - k),
        decreases k,
    {
        k = k - 1;
        proof {
            assert(low.take(rev.len() - k) =~= low.take(rev.len() - k - 1).push(rev@[k as int]));
        }
        push_char(s, rev[k]);
    }
    assert(low.take(rev.len() as int) =~= low);
}


/// Unicode `White_Space` characters, the ones that `char::is_whitespace` accepts.
pub open spec fn is_space(c: char) -> bool {
    let u = c as u32;
    ||| 0x09 <= u <= 0x0D
    ||| u == 0x20
    ||| u == 0x85
    ||| u == 0xA0
    ||| u == 0x1680
    ||| 0x2000 <= u <= 0x200A
    ||| u == 0x2028
    ||| u == 0x2029
    ||| u == 0x202F
    ||| u == 0x205F
    ||| u == 0x3000
}

pub fn is_space_char(c: char) -> (b: bool)
    ensures
        b == is_space(c),
{
    let u = c as u32;
    (0x09 <= u && u <= 0x0D) || u == 0x20 || u == 0x85 || u == 0xA0 || u == 0x1680 || (0x2000
        <= u && u <= 0x200A) || u == 0x2028 || u == 0x2029 || u == 0x202F || u == 0x205F || u
        == 0x3000
}

/// `s` without its trailing whitespace.
pub open spec fn trim_end(s: Seq<char>) -> Seq<char>
    decreases s.len(),
{
    if s.len() > 0 && is_space(s.last()) {
        trim_end(s.drop_last())
    } else {
        s
    }
}

/// Trimming keeps a prefix that ends in a character other than whitespace
/// (or is empty), and trimming twice is trimming once.
pub proof fn lemma_trim_end(s: Seq<char>)
    ensures
        trim_end(s).len() <= s.len(),
        trim_end(s) == s.take(trim_end(s).len() as int),
        trim_end(s).len() > 0 ==> !is_space(trim_end(s).last()),
        trim_end(trim_end(s)) == trim_end(s),
    decreases s.len(),
{
    if s.len() > 0 && is_space(s.last()) {
        lemma_trim_end(s.drop_last());
        let t = trim_end(s.drop_last());
        assert(s.drop_last().take(t.len() as int) =~= s.take(t.len() as int));
    } else {
        assert(s.take(s.len() as int) =~= s);
    }
}

/// What `String::from_utf8_lossy` makes of a byte sequence: the bytes decoded
/// as UTF-8, with each invalid sequence replaced by U+FFFD.
pub uninterp spec fn utf8_lossy(bytes: Seq<u8>) -> Seq<char>;

/// The text that lossy decoding gives: valid UTF-8 decoded as it stands,
/// anything else as `String::from_utf8_lossy` makes of it.
pub open spec fn lossy_text(bytes: Seq<u8>) -> Seq<char> {
    if valid_utf8(bytes) {
        decode_utf8(bytes)
    } else {
        utf8_lossy(bytes)
    }
}

/// Decodes `bytes` as UTF-8, replacing invalid sequences.
///
/// Trusted: calls std's `String::from_utf8_lossy` and takes ownership of the
/// result. Its documentation says that valid UTF-8 comes back unchanged and
/// that each invalid sequence (at least one byte) becomes one U+FFFD, so
/// every character of the result stands for at least one byte. The rest of
/// the replacement rules are left to the name `utf8_lossy`.
#[verifier::external_body]
pub(crate) fn decode_utf8_lossy(bytes: &[u8]) -> (s: String)
    ensures
        s@ == utf8_lossy(bytes@),
        valid_utf8(bytes@) ==> s@ == decode_utf8(bytes@),
        s@.len() <= bytes@.len(),
{
    String::from_utf8_lossy(bytes).into_owned()
}

/// Copies the first `k` characters of `s`.
pub(crate) fn prefix_chars(s: &str, k: usize) -> (out: String)
    requires
        k <= s@.len(),
    ensures
        out@ == s@.take(k as int),
{
    let mut out = String::new();
    let mut i: usize = 0;
    while i < k
        invariant
            i <= k <= s@.len(),
            out@ == s@.take(i as int),
        decreases k - i,
    {
        let c = s.get_char(i);
        push_char(&mut out, c);
        i = i + 1;
        assert(out@ =~= s@.take(i as int));
    }
    out
}

/// `s` without its trailing whitespace (std's `str::trim_end`).
pub fn trim_end_string(s: &str) -> (out: String)
    ensures
        out@ == trim_end(s@),
{
    let n = s.unicode_len();
    let mut k: usize = n;
    assert(s@.take(n as int) =~= s@);
    while k > 0 && is_space_char(s.get_char(k - 1))
        invariant
            k <= n == s@.len(),
            trim_end(s@) == trim_end(s@.take(k as int)),
        decreases k,
    {
        proof {
            assert(s@.take(k as int).drop_last() =~= s@.take(k - 1));
        }
        k = k - 1;
    }
    proof {
        if k > 0 {
            assert(s@.take(k as int).last() == s@[k - 1]);
        }
    }
    prefix_chars(s, k)
}

/// The characters of `s`.
pub fn chars_of(s: &str) -> (v: Vec<char>)
    ensures
        v@ == s@,
{
    broadcast use vstd::string::group_string_axioms;

    let mut v: Vec<char> = Vec::new();
    for c in it: s.chars()
        invariant
            it.seq() == s@,
            v@ == it.seq().take(it.index() as int),
    {
        v.push(c);
    }
    v
}

} // verus!
