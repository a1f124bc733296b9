//! Case folding and byte-level substring search used by history search.

use vstd::prelude::*;
use vstd::string::StrSliceExecFns;

verus! {

/// The lower-case form of `s`, as `str::to_lowercase` computes it.
pub uninterp spec fn lowercase(s: Seq<char>) -> Seq<char>;

/// Trusted: wraps `str::to_lowercase`. Claims only that the result is the
/// named function `lowercase` of the argument (Unicode lower-casing depends
/// on nothing but the text).
#[verifier::external_body]
pub fn to_lowercase(s: &str) -> (r: String)
    ensures
        r@ == lowercase(s@),
{
    s.to_lowercase()
}

/// `needle` occurs in `hay` as a contiguous run of bytes.
pub open spec fn has_infix(hay: Seq<u8>, needle: Seq<u8>) -> bool {
    exists|i: int| 0 <= i <= hay.len() - needle.len() && #[trigger] hay.subrange(i, i + needle.len()) == needle
}

/// Whether `needle` occurs in `hay`, comparing bytes.
pub fn bytes_contain(hay: &[u8], needle: &[u8]) -> (r: bool)
    ensures
        r == has_infix(hay@, needle@),
{
    let n = needle.len();
    if n > hay.len() {
        return false;
    }
    if n == 0 {
        assert(hay@.subrange(0int, 0int + needle@.len()) =~= needle@);
        return true;
    }
    let last = hay.len() - n;
    let mut i: usize = 0;
    while i <= last
        invariant
            n == needle@.len(),
            n > 0,
            hay@.len() == hay.len(),
            last == hay@.len() - n,
            i <= last + 1,
            forall|j: int| 0 <= j < i ==> #[trigger] hay@.subrange(j, j + n) != needle@,
        decreases last + 1 - i,
    {
        let mut k: usize = 0;
        let mut same = true;
        while k < n && same
            invariant
                n == needle@.len(),
                i <= last,
                last == hay@.len() - n,
                i + n <= hay@.len(),
                hay@.len() == hay.len(),
                k <= n,
                same ==> forall|t: int| 0 <= t < k ==> hay@[i + t] == needle@[t],
                !same ==> exists|t: int| 0 <= t < n && hay@[i + t] != needle@[t],
            decreases n - k, (if same { 1int } else { 0int }),
        {
            if hay[i + k] != needle[k] {
                same = false;
            } else {
                k += 1;
            }
        }
        if same {
            assert(hay@.subrange(i as int, i + n) =~= needle@);
            return true;
        }
        proof {
            let t = choose|t: int| 0 <= t < n && hay@[i + t] != needle@[t];
            assert(hay@.subrange(i as int, i + n)[t] != needle@[t]);
        }
        i += 1;
    }
    false
}

/// `String::push` appends one character, as std documents.
pub assume_specification[ std::string::String::push ](s: &mut String, ch: char)
    ensures
        final(s)@ == old(s)@.push(ch),
;

/// How a character of a body shows in a one-line preview: a line break
/// as `⏎`.
pub open spec fn shown_char(c: char) -> char {
    if c == '\n' {
        '⏎'
    } else {
        c
    }
}

/// The one-line preview of `body`: its first `max` characters, line breaks
/// shown as `⏎`, and `…` when something was cut.
pub open spec fn preview_text(body: Seq<char>, max: nat) -> Seq<char> {
    if body.len() > max {
        body.take(max as int).map_values(|c: char| shown_char(c)).push('…')
    } else {
        body.map_values(|c: char| shown_char(c))
    }
}

/// The one-line preview of a history item's body.
pub fn preview(body: &str, max: usize) -> (r: String)
    ensures
        r@ == preview_text(body@, max as nat),
{
    let len = body.unicode_len();
    let n = if len > max {
        max
    } else {
        len
    };
    let mut out = String::new();
    let mut i: usize = 0;
    while i < n
        invariant
            i <= n,
            n <= body@.len(),
            len == body@.len(),
            out@ == body@.take(i as int).map_values(|c: char| shown_char(c)),
        decreases n - i,
    {
        let c = body.get_char(i);
        let shown = if c == '\n' {
            '⏎'
        } else {
            c
        };
        out.push(shown);
        i += 1;
        assert(out@ =~= body@.take(i as int).map_values(|c: char| shown_char(c)));
    }
    if len > max {
        out.push('…');
    } else {
        assert(body@.take(n as int) =~= body@);
    }
    out
}

} // verus!
