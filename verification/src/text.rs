//! Comparing and trimming text.
use vstd::prelude::*;
use vstd::string::StringSliceAdditionalSpecFns;
use vstd::string::StrSliceExecFns;
use vstd::std_specs::iter::IteratorSpec;
use vstd::utf8::*;

verus! {

/// Whether `a` and `b` hold the same text.
pub fn same_text(a: &str, b: &str) -> (r: bool)
    ensures
        r == (a@ == b@),
{
    broadcast use group_utf8_lib;

    let x = a.as_bytes();
    let y = b.as_bytes();
    if x.len() != y.len() {
        proof {
            if a@ == b@ {
                assert(a.spec_bytes() == b.spec_bytes());
            }
        }
        return false;
    }
    let mut i: usize = 0;
    while i < x.len()
        invariant
            x@ == a.spec_bytes(),
            y@ == b.spec_bytes(),
            x@.len() == y@.len(),
            i <= x@.len(),
            forall|j: int| 0 <= j < i ==> x@[j] == y@[j],
        decreases x@.len() - i,
    {
        if x[i] != y[i] {
            proof {
                if a@ == b@ {
                    assert(a.spec_bytes() == b.spec_bytes());
                }
            }
            return false;
        }
        i = i + 1;
    }
    assert(a.spec_bytes() =~= b.spec_bytes());
    assert(decode_utf8(encode_utf8(a@)) == decode_utf8(encode_utf8(b@)));
    true
}

/// Unicode `White_Space`, the whitespace that `str::trim_end` removes.
pub open spec fn is_whitespace(c: char) -> bool {
    ||| ('\u{9}' <= c && c <= '\u{d}')
    ||| c == ' '
    ||| c == '\u{85}'
    ||| c == '\u{a0}'
    ||| c == '\u{1680}'
    ||| ('\u{2000}' <= c && c <= '\u{200a}')
    ||| c == '\u{2028}'
    ||| c == '\u{2029}'
    ||| c == '\u{202f}'
    ||| c == '\u{205f}'
    ||| c == '\u{3000}'
}

fn whitespace(c: char) -> (r: bool)
    ensures
        r == is_whitespace(c),
{
    ('\u{9}' <= c && c <= '\u{d}') || c == ' ' || c == '\u{85}' || c == '\u{a0}' || c
        == '\u{1680}' || ('\u{2000}' <= c && c <= '\u{200a}') || c == '\u{2028}' || c
        == '\u{2029}' || c == '\u{202f}' || c == '\u{205f}' || c == '\u{3000}'
}

/// The length of `s` without its trailing whitespace.
pub open spec fn kept_len(s: Seq<char>) -> nat
    decreases s.len(),
{
    if s.len() == 0 {
        0
    } else if is_whitespace(s.last()) {
        kept_len(s.drop_last())
    } else {
        s.len()
    }
}

pub proof fn lemma_kept_len(s: Seq<char>)
    ensures
        kept_len(s) <= s.len(),
        kept_len(s) > 0 ==> !is_whitespace(s[kept_len(s) - 1]),
        forall|i: int| kept_len(s) <= i < s.len() ==> is_whitespace(#[trigger] s[i]),
    decreases s.len(),
{
    if s.len() > 0 && is_whitespace(s.last()) {
        let t = s.drop_last();
        lemma_kept_len(t);
        assert forall|i: int| kept_len(s) <= i < s.len() implies is_whitespace(#[trigger] s[i]) by {
            if i < t.len() {
                assert(s[i] == t[i]);
            }
        }
    }
}

/// Each character takes at least one byte.
pub proof fn lemma_encoded_len(s: Seq<char>)
    ensures
        s.len() <= encode_utf8(s).len(),
    decreases s.len(),
{
    if s.len() > 0 {
        lemma_encoded_len(s.drop_first());
    }
}

/// `text` without trailing whitespace, as `str::trim_end` gives it.
pub fn trimmed_text(text: &str) -> (r: &str)
    ensures
        r@ == text@.take(kept_len(text@) as int),
{
    let byte_len = text.as_bytes().len();
    proof {
        lemma_encoded_len(text@);
    }
    let mut chars = text.chars();
    let mut count: usize = 0;
    let mut keep: usize = 0;
    let ghost all = text@;
    proof {
        broadcast use vstd::string::group_string_axioms;
        assert(chars.remaining() == all);
    }
    loop
        invariant
            chars.obeys_prophetic_iter_laws(),
            count <= all.len(),
            chars.remaining() == all.skip(count as int),
            keep <= count,
            keep == kept_len(all.take(count as int)),
            all.len() <= byte_len <= usize::MAX,
        ensures
            count == all.len(),
            keep == kept_len(all),
        decreases all.len() - count,
    {
        let ghost before = chars;
        let next = chars.next();
        proof {
            broadcast use vstd::string::group_string_axioms;
        }
        match next {
            None => {
                assert(all.skip(count as int).len() == 0);
                assert(all.take(count as int) =~= all);
                break;
            },
            Some(c) => {
                assert(all.skip(count as int)[0] == all[count as int]);
                assert(all.take(count + 1) =~= all.take(count as int).push(c));
                assert(all.skip(count + 1) =~= all.skip(count as int).drop_first());
                assert(all.take(count + 1).drop_last() =~= all.take(count as int));
                count = count + 1;
                if !whitespace(c) {
                    keep = count;
                }
            },
        }
    }
    text.substring_char(0, keep)
}

/// The code points of Unicode's `White_Space` property, the table that
/// `char::is_whitespace` follows.
pub open spec fn white_space_code(n: u32) -> bool {
    ||| 0x9 <= n <= 0xd
    ||| n == 0x20
    ||| n == 0x85
    ||| n == 0xa0
    ||| n == 0x1680
    ||| 0x2000 <= n <= 0x200a
    ||| n == 0x2028
    ||| n == 0x2029
    ||| n == 0x202f
    ||| n == 0x205f
    ||| n == 0x3000
}

/// The whitespace that is trimmed is exactly Unicode `White_Space`; among ASCII
/// characters, the tab, line feed, vertical tab, form feed, carriage return and
/// space.
pub proof fn lemma_whitespace_is_white_space(c: char)
    ensures
        is_whitespace(c) <==> white_space_code(c as u32),
        (c as u32) < 0x80 ==> (is_whitespace(c) <==> (c == '\t' || c == '\n' || c == '\u{b}'
            || c == '\u{c}' || c == '\r' || c == ' ')),
{
}

/// `trimmed_text` keeps a prefix of the text; what it removes is all
/// `White_Space`, and the last character it keeps (if any) is not.
pub proof fn lemma_trimmed_text(s: Seq<char>)
    ensures
        kept_len(s) <= s.len(),
        forall|i: int| kept_len(s) <= i < s.len() ==> white_space_code(#[trigger] s[i] as u32),
        kept_len(s) > 0 ==> !white_space_code(s[kept_len(s) - 1] as u32),
{
    lemma_kept_len(s);
    assert forall|i: int| kept_len(s) <= i < s.len() implies white_space_code(#[trigger] s[i] as u32) by {
        lemma_whitespace_is_white_space(s[i]);
    }
    if kept_len(s) > 0 {
        lemma_whitespace_is_white_space(s[kept_len(s) - 1]);
    }
}

} // verus!
