//! Format strings with `{name}` interpolations.
//!
//! All positions are byte offsets into the UTF-8 encoding of the format string.
//! An interpolation starts at a `{` that is not followed by another `{` and ends
//! at the next `}`; `{{` is an escaped brace.
use vstd::prelude::*;
use vstd::string::StringSliceAdditionalSpecFns;
use vstd::utf8::*;
use vstd::string::StringExecFns;
use crate::bytes::{
    ascii_edge, byte_range, find_byte, find_from, lemma_ascii_edge_is_boundary, lemma_find_from,
};

verus! {

#[verifier::external_type_specification]
#[verifier::external_body]
pub struct ExIoError(std::io::Error);

/// The ways in which checking or expanding a format string can fail.
pub enum CheckFormatError<'a> {
    /// The callback rejected this interpolation.
    InvalidInterpolation(&'a str),
    /// The `{` at this byte offset has no matching `}`.
    UnclosedBrace(usize),
    /// The callback failed with an I/O error.
    Io(std::io::Error),
}

pub type CheckFormatResult<'a, T = (), E = CheckFormatError<'a>> = Result<T, E>;

impl<'a> From<std::io::Error> for CheckFormatError<'a> {
    fn from(value: std::io::Error) -> (r: Self) {
        CheckFormatError::Io(value)
    }
}

impl<'a> vstd::std_specs::convert::FromSpecImpl<std::io::Error> for CheckFormatError<'a> {
    open spec fn obeys_from_spec() -> bool {
        true
    }

    open spec fn from_spec(v: std::io::Error) -> Self {
        CheckFormatError::Io(v)
    }
}

/// The byte `{`.
pub const OPEN_BRACE: u8 = 0x7b;

/// The byte `}`.
pub const CLOSE_BRACE: u8 = 0x7d;

/// Whether a `{{` starts at `open`, given that `b[open]` is `{`.
pub open spec fn escaped_at(b: Seq<u8>, open: int) -> bool {
    open + 1 < b.len() && b[open + 1] == OPEN_BRACE
}

/// What `check_format` meets from byte `index` on: the byte ranges of the
/// interpolations, in order, and the offset of a `{` left unclosed at the end.
pub open spec fn check_scan(b: Seq<u8>, index: int) -> (Seq<(int, int)>, Option<int>)
    decreases b.len() - index,
{
    if index < 0 || index >= b.len() {
        (seq![], None)
    } else {
        match find_from(b, index, OPEN_BRACE) {
            None => (seq![], None),
            Some(open) => {
                proof {
                    lemma_find_from(b, index, OPEN_BRACE);
                }
                if escaped_at(b, open) {
                    check_scan(b, open + 2)
                } else {
                    match find_from(b, open + 1, CLOSE_BRACE) {
                        None => (seq![], Some(open)),
                        Some(close) => {
                            proof {
                                lemma_find_from(b, open + 1, CLOSE_BRACE);
                            }
                            let rest = check_scan(b, close + 1);
                            (seq![(open + 1, close)] + rest.0, rest.1)
                        },
                    }
                }
            },
        }
    }
}

/// `f` was called with the text of byte range `range` of `b` and returned `r`.
pub open spec fn called_with<'a, F: FnMut(&'a str) -> CheckFormatResult<'a>>(
    f: F,
    b: Seq<u8>,
    range: (int, int),
    r: CheckFormatResult<'a>,
) -> bool {
    exists|x: &'a str| #[trigger] f.ensures((x,), r) && x.spec_bytes() == b.subrange(range.0, range.1)
}

/// `f` was called with the text of byte range `range` of `b` and accepted it.
pub open spec fn called_ok<'a, F: FnMut(&'a str) -> CheckFormatResult<'a>>(
    f: F,
    b: Seq<u8>,
    range: (int, int),
) -> bool {
    exists|r: CheckFormatResult<'a>| #[trigger] called_with(f, b, range, r) && r is Ok
}

/// What `check_format(fmt, f)` returns, where `b` is the UTF-8 encoding of `fmt`:
/// `f` is called on each interpolation in order until it fails; its first error
/// is returned; if it accepts all of them, an unclosed `{` at the end is reported.
pub open spec fn check_format_outcome<'a, F: FnMut(&'a str) -> CheckFormatResult<'a>>(
    f: F,
    b: Seq<u8>,
    r: CheckFormatResult<'a>,
) -> bool {
    let (ranges, unclosed) = check_scan(b, 0);
    match r {
        Ok(_) => unclosed is None && forall|j: int|
            0 <= j < ranges.len() ==> called_ok(f, b, #[trigger] ranges[j]),
        Err(e) => {
            ||| exists|k: int|
                0 <= k < ranges.len() && (forall|j: int|
                    0 <= j < k ==> called_ok(f, b, #[trigger] ranges[j])) && #[trigger] called_with(
                    f,
                    b,
                    ranges[k],
                    Err(e),
                )
            ||| unclosed matches Some(p) && e == CheckFormatError::<'a>::UnclosedBrace(p as usize)
                && forall|j: int| 0 <= j < ranges.len() ==> called_ok(f, b, #[trigger] ranges[j])
        },
    }
}

/// Calls `f` on every interpolation of `fmt`, in order, and stops at the first
/// error. `{{` is skipped; a `{` without a later `}` gives `UnclosedBrace` with
/// its byte offset.
#[verifier::loop_isolation(false)]
pub fn check_format<'a, F: FnMut(&'a str) -> CheckFormatResult<'a>>(
    fmt: &'a str,
    mut f: F,
) -> (r: CheckFormatResult<'a>)
    requires
        forall|x: &'a str| f.requires((x,)),
    ensures
        check_format_outcome(f, fmt.spec_bytes(), r),
{
    broadcast use group_utf8_lib, vstd::function::group_function_axioms;

    let bytes = fmt.as_bytes();
    let len = bytes.len();
    let ghost b = fmt.spec_bytes();
    let ghost ranges = check_scan(b, 0).0;
    let ghost unclosed = check_scan(b, 0).1;
    let ghost mut k: int = 0;
    let ghost f0 = f;
    let mut index: usize = 0;
    assert(ranges.skip(0) =~= ranges);
    while index < len
        invariant
            bytes@ == b,
            len == b.len(),
            b == fmt.spec_bytes(),
            f == f0,
            forall|x: &'a str| f.requires((x,)),
            ranges == check_scan(b, 0).0,
            unclosed == check_scan(b, 0).1,
            0 <= k <= ranges.len(),
            index <= len,
            ascii_edge(b, index as int),
            check_scan(b, index as int) == (ranges.skip(k), unclosed),
            forall|j: int| 0 <= j < k ==> called_ok(f, b, #[trigger] ranges[j]),
        decreases len - index,
    {
        let next_open = find_byte(bytes, index, OPEN_BRACE);
        proof {
            lemma_find_from(b, index as int, OPEN_BRACE);
        }
        let open = match next_open {
            None => {
                assert(ranges.skip(k).len() == 0);
                return Ok(());
            },
            Some(open) => open,
        };
        if open + 1 < len && bytes[open + 1] == OPEN_BRACE {
            index = open + 2;
            continue;
        }
        let next_close = find_byte(bytes, open + 1, CLOSE_BRACE);
        proof {
            lemma_find_from(b, open + 1, CLOSE_BRACE);
        }
        let close = match next_close {
            None => {
                assert(ranges.skip(k).len() == 0);
                return Err(CheckFormatError::UnclosedBrace(open));
            },
            Some(close) => close,
        };
        let inner = byte_range(fmt, open + 1, close);
        let ghost rest = check_scan(b, close + 1);
        proof {
            assert(check_scan(b, index as int) == (seq![(open + 1, close as int)] + rest.0, rest.1));
            assert(ranges.skip(k)[0] == (open + 1, close as int));
            assert(ranges.skip(k).len() == ranges.len() - k);
            assert(ranges[k] == ranges.skip(k)[0]);
        }
        let res = f(inner);
        proof {
            assert(called_with(f, b, ranges[k], res));
        }
        match res {
            Ok(()) => {},
            Err(e) => {
                return Err(e);
            },
        }
        proof {
            assert(called_ok(f, b, ranges[k]));
            assert(ranges.skip(k + 1) =~= ranges.skip(k).drop_first());
            assert(check_scan(b, close + 1) == (ranges.skip(k + 1), unclosed));
            k = k + 1;
        }
        index = close + 1;
    }
    assert(ranges.skip(k).len() == 0);
    Ok(())
}

/// One step of `format`: literal text copied from a byte range, an escaped
/// `{{` (copied as it stands, two braces), or an interpolation handed to the
/// callback.
pub enum Piece {
    Text(int, int),
    Escape,
    Interp(int, int),
}

/// Where the interpolation that starts at byte `cs` ends: at the first `}` from
/// `cs` on that is not doubled (a `}}` belongs to the interpolation), or at the
/// end of `b`; `None` when a `}` is missing.
pub open spec fn close_end(b: Seq<u8>, cs: int) -> Option<int>
    decreases b.len() - cs,
{
    if cs < 0 {
        None
    } else if cs >= b.len() {
        Some(cs)
    } else {
        match find_from(b, cs, CLOSE_BRACE) {
            None => None,
            Some(nc) => {
                proof {
                    lemma_find_from(b, cs, CLOSE_BRACE);
                }
                if nc + 1 < b.len() && b[nc + 1] == CLOSE_BRACE {
                    close_end(b, nc + 2)
                } else {
                    Some(nc)
                }
            },
        }
    }
}

/// The end of an interpolation lies at a `}` or at the end of `b`.
pub proof fn lemma_close_end(b: Seq<u8>, cs: int)
    requires
        0 <= cs <= b.len(),
    ensures
        close_end(b, cs) matches Some(e) ==> cs <= e <= b.len() && (e == b.len() || b[e]
            == CLOSE_BRACE),
    decreases b.len() - cs,
{
    if cs < b.len() {
        lemma_find_from(b, cs, CLOSE_BRACE);
        if let Some(nc) = find_from(b, cs, CLOSE_BRACE) {
            if nc + 1 < b.len() && b[nc + 1] == CLOSE_BRACE {
                lemma_close_end(b, nc + 2);
            }
        }
    }
}

/// The steps `format` takes from byte `index` on, and the offset of a `{` left
/// unclosed at the end.
pub open spec fn format_scan(b: Seq<u8>, index: int) -> (Seq<Piece>, Option<int>)
    decreases b.len() + 1 - index,
{
    if index < 0 || index >= b.len() {
        (seq![], None)
    } else {
        match find_from(b, index, OPEN_BRACE) {
            None => (seq![Piece::Text(index, b.len() as int)], None),
            Some(open) => {
                proof {
                    lemma_find_from(b, index, OPEN_BRACE);
                }
                if escaped_at(b, open) {
                    let rest = format_scan(b, open + 2);
                    (seq![Piece::Text(index, open), Piece::Escape] + rest.0, rest.1)
                } else {
                    match close_end(b, open + 1) {
                        None => (seq![Piece::Text(index, open)], Some(open)),
                        Some(cs) => {
                            proof {
                                lemma_find_from(b, index, OPEN_BRACE);
                                lemma_close_end(b, open + 1);
                            }
                            let rest = format_scan(b, cs + 1);
                            (
                                seq![Piece::Text(index, open), Piece::Interp(open + 1, cs)]
                                    + rest.0,
                                rest.1,
                            )
                        },
                    }
                }
            },
        }
    }
}

/// The characters that a text or escape step appends.
pub open spec fn piece_text(b: Seq<u8>, p: Piece) -> Seq<char> {
    match p {
        Piece::Text(lo, hi) => decode_utf8(b.subrange(lo, hi)),
        Piece::Escape => seq!['{', '{'],
        Piece::Interp(_, _) => seq![],
    }
}

/// The bytes of the interpolation that an interpolation step hands over.
pub open spec fn interp_bytes(b: Seq<u8>, p: Piece) -> Seq<u8> {
    match p {
        Piece::Interp(lo, hi) => b.subrange(lo, hi),
        _ => seq![],
    }
}

/// `mid[j]` is the buffer before step `j`, for the first `done` steps; a text or
/// escape step appends its text (what an interpolation step leaves is stated
/// where the callback is called).
pub open spec fn format_trace(b: Seq<u8>, pieces: Seq<Piece>, mid: Seq<Seq<char>>, done: int) -> bool {
    &&& 0 <= done <= pieces.len()
    &&& mid.len() == done + 1
    &&& mid[0] == Seq::<char>::empty()
    &&& forall|j: int|
        0 <= j < done && !(#[trigger] pieces[j] is Interp) ==> mid[j + 1] == mid[j] + piece_text(
            b,
            pieces[j],
        )
}

/// Index of the end of the interpolation that starts at `cs` (see `close_end`).
fn find_close_end(bytes: &[u8], cs: usize) -> (r: Option<usize>)
    requires
        cs <= bytes@.len(),
    ensures
        match r {
            Some(e) => close_end(bytes@, cs as int) == Some(e as int),
            None => close_end(bytes@, cs as int) is None,
        },
{
    let len = bytes.len();
    let mut close_scan = cs;
    while close_scan < len
        invariant
            len == bytes@.len(),
            cs <= close_scan <= len,
            close_end(bytes@, cs as int) == close_end(bytes@, close_scan as int),
        decreases len - close_scan,
    {
        let next_close = match find_byte(bytes, close_scan, CLOSE_BRACE) {
            None => {
                return None;
            },
            Some(nc) => nc,
        };
        proof {
            lemma_find_from(bytes@, close_scan as int, CLOSE_BRACE);
        }
        if next_close + 1 < len && bytes[next_close + 1] == CLOSE_BRACE {
            close_scan = next_close + 2;
        } else {
            return Some(next_close);
        }
    }
    Some(close_scan)
}

/// How `format` ends after the first `done` steps, with `mid[done]` in the
/// buffer: all steps taken gives the buffer (or the unclosed brace); otherwise
/// the callback failed on step `done`.
pub open spec fn format_end<'a>(
    pieces: Seq<Piece>,
    unclosed: Option<int>,
    mid: Seq<Seq<char>>,
    done: int,
    r: CheckFormatResult<'a, String>,
) -> bool {
    if done == pieces.len() {
        match unclosed {
            None => r matches Ok(out) && out@ == mid[done],
            Some(p) => r == Err::<String, CheckFormatError<'a>>(
                CheckFormatError::UnclosedBrace(p as usize),
            ),
        }
    } else {
        pieces[done] is Interp && r is Err
    }
}

/// Copies `s`, handing each interpolation to `f` together with the output so
/// far. `{{` is copied as it stands; an interpolation runs to the first `}` that
/// is not doubled, or to the end of `s` right after a `}}` or a final `{`;
/// one that finds no end (text without a `}` follows) gives `UnclosedBrace`
/// with the offset of its `{`. The first error of `f` is returned.
#[verifier::loop_isolation(false)]
pub fn format<'a, F: FnMut(&'a str, &mut String) -> CheckFormatResult<'a>>(
    s: &'a str,
    mut f: F,
) -> (r: CheckFormatResult<'a, String>)
    requires
        forall|x: &'a str, buf: &mut String| f.requires((x, buf)),
    ensures
        ({
            let b = s.spec_bytes();
            let (pieces, unclosed) = format_scan(b, 0);
            exists|mid: Seq<Seq<char>>, done: int|
                {
                    &&& #[trigger] format_trace(b, pieces, mid, done)
                    &&& format_end(pieces, unclosed, mid, done, r)
                    &&& forall|j: int|
                        0 <= j < done && #[trigger] pieces[j] is Interp ==> exists|
                            x: &'a str,
                            buf: &mut String,
                            rr: CheckFormatResult<'a>,
                        |
                            #![trigger f.ensures((x, buf), rr)]
                            rr is Ok && f.ensures((x, buf), rr) && x.spec_bytes()
                                == interp_bytes(b, pieces[j]) && (*buf)@ == mid[j]
                                && (*final(buf))@ == mid[j + 1]
                    &&& done < pieces.len() ==> exists|x: &'a str, buf: &mut String|
                        #![trigger f.ensures((x, buf), Err::<(), CheckFormatError<'a>>(r->Err_0))]
                        f.ensures((x, buf), Err::<(), CheckFormatError<'a>>(r->Err_0))
                            && x.spec_bytes() == interp_bytes(b, pieces[done]) && (*buf)@
                            == mid[done]
                }
        }),
{
    broadcast use group_utf8_lib, vstd::function::group_function_axioms;

    let bytes = s.as_bytes();
    let len = bytes.len();
    let ghost b = s.spec_bytes();
    let ghost pieces = format_scan(b, 0).0;
    let ghost unclosed = format_scan(b, 0).1;
    let ghost mut mid: Seq<Seq<char>> = seq![Seq::<char>::empty()];
    let ghost mut done: int = 0;
    let ghost f0 = f;
    let mut buffer = String::new();
    let mut index: usize = 0;
    assert(pieces.skip(0) =~= pieces);
    while index < len
        invariant
            bytes@ == b,
            len == b.len(),
            f == f0,
            pieces == format_scan(b, 0).0,
            unclosed == format_scan(b, 0).1,
            index <= len,
            0 <= done <= pieces.len(),
            ascii_edge(b, index as int),
            format_scan(b, index as int) == (pieces.skip(done), unclosed),
            format_trace(b, pieces, mid, done),
            buffer@ == mid[done],
            forall|j: int|
                0 <= j < done && #[trigger] pieces[j] is Interp ==> exists|
                    x: &'a str,
                    buf: &mut String,
                    rr: CheckFormatResult<'a>,
                |
                    #![trigger f.ensures((x, buf), rr)]
                    rr is Ok && f.ensures((x, buf), rr) && x.spec_bytes() == interp_bytes(
                        b,
                        pieces[j],
                    ) && (*buf)@ == mid[j] && (*final(buf))@ == mid[j + 1],
        decreases len - index,
    {
        proof {
            lemma_find_from(b, index as int, OPEN_BRACE);
        }
        let open = match find_byte(bytes, index, OPEN_BRACE) {
            None => {
                let tail = byte_range(s, index, len);
                buffer.append(tail);
                proof {
                    assert(format_scan(b, index as int) == (
                        seq![Piece::Text(index as int, len as int)],
                        None::<int>,
                    ));
                    assert(pieces.skip(done).len() == pieces.len() - done);
                    lemma_skip_first(pieces, done);
                    lemma_plain_step(f, b, pieces, mid, done, buffer@);
                    mid = mid.push(buffer@);
                    done = done + 1;
                }
                let r = Ok(buffer);
                assert(format_end(pieces, unclosed, mid, done, r));
                return r;
            },
            Some(open) => open,
        };
        let text = byte_range(s, index, open);
        buffer.append(text);
        let escaped = open + 1 < len && bytes[open + 1] == OPEN_BRACE;
        proof {
            lemma_close_end(b, open + 1);
            assert(format_scan(b, index as int).0[0] == Piece::Text(index as int, open as int));
            assert(pieces.skip(done).len() == pieces.len() - done);
            lemma_skip_first(pieces, done);
            lemma_plain_step(f, b, pieces, mid, done, buffer@);
            mid = mid.push(buffer@);
            done = done + 1;
        }
        if escaped {
            buffer.append("{{");
            proof {
                reveal_strlit("{{");
                assert("{{"@ =~= seq!['{', '{']);
                let rest = format_scan(b, open + 2);
                assert(format_scan(b, index as int) == (
                    seq![Piece::Text(index as int, open as int), Piece::Escape] + rest.0,
                    rest.1,
                ));
                assert(pieces[done] == pieces.skip(done - 1)[1]);
                assert(pieces.skip(done + 1) =~= pieces.skip(done - 1).drop_first().drop_first());
                lemma_plain_step(f, b, pieces, mid, done, buffer@);
                mid = mid.push(buffer@);
                done = done + 1;
            }
            index = open + 2;
            continue;
        }
        let close_scan = match find_close_end(bytes, open + 1) {
            None => {
                proof {
                    assert(format_scan(b, index as int) == (
                        seq![Piece::Text(index as int, open as int)],
                        Some(open as int),
                    ));
                    assert(pieces.skip(done - 1).len() == 1);
                }
                let r = Err(CheckFormatError::UnclosedBrace(open));
                assert(format_end(pieces, unclosed, mid, done, r));
                return r;
            },
            Some(close_scan) => close_scan,
        };
        let ghost rest = format_scan(b, close_scan + 1);
        proof {
            assert(format_scan(b, index as int) == (
                seq![Piece::Text(index as int, open as int), Piece::Interp(open + 1, close_scan as int)]
                    + rest.0,
                rest.1,
            ));
            assert(pieces[done] == pieces.skip(done - 1)[1]);
            assert(pieces.skip(done + 1) =~= pieces.skip(done - 1).drop_first().drop_first());
        }
        let ghost old_mid = mid;
        let inner = byte_range(s, open + 1, close_scan);
        let ghost before = buffer@;
        let res = f(inner, &mut buffer);
        proof {
            assert(exists|x: &'a str, buf: &mut String, rr: CheckFormatResult<'a>|
                #![trigger f.ensures((x, buf), rr)]
                rr == res && f.ensures((x, buf), rr) && x.spec_bytes() == interp_bytes(
                    b,
                    pieces[done],
                ) && (*buf)@ == before && (*final(buf))@ == buffer@);
        }
        match res {
            Ok(()) => {},
            Err(e) => {
                let r = Err(e);
                assert(format_end(pieces, unclosed, mid, done, r));
                assert(mid[done] == before);
                assert(res == Err::<(), CheckFormatError<'a>>(r->Err_0));
                assert(exists|x: &'a str, buf: &mut String|
                    #![trigger f.ensures((x, buf), Err::<(), CheckFormatError<'a>>(r->Err_0))]
                    f.ensures((x, buf), Err::<(), CheckFormatError<'a>>(r->Err_0))
                        && x.spec_bytes() == interp_bytes(b, pieces[done]) && (*buf)@
                        == mid[done]);
                return r;
            },
        }
        proof {
            lemma_trace_step(b, pieces, mid, done, buffer@);
            mid = mid.push(buffer@);
            done = done + 1;
            assert forall|j: int| 0 <= j < done && #[trigger] pieces[j] is Interp implies exists|
                    x: &'a str,
                    buf: &mut String,
                    rr: CheckFormatResult<'a>,
                |
                    #![trigger f.ensures((x, buf), rr)]
                    rr is Ok && f.ensures((x, buf), rr) && x.spec_bytes() == interp_bytes(
                        b,
                        pieces[j],
                    ) && (*buf)@ == mid[j] && (*final(buf))@ == mid[j + 1] by {
                assert(mid[j] == old_mid[j]);
                if j < done - 1 {
                    assert(mid[j + 1] == old_mid[j + 1]);
                }
            }
        }
        if close_scan >= len {
            assert(format_scan(b, close_scan + 1) == (Seq::<Piece>::empty(), None::<int>));
            assert(pieces.skip(done).len() == 0);
            let r = Ok(buffer);
            assert(format_end(pieces, unclosed, mid, done, r));
            return r;
        }
        index = close_scan + 1;
    }
    assert(pieces.skip(done).len() == 0);
    let r = Ok(buffer);
    assert(format_end(pieces, unclosed, mid, done, r));
    r
}

/// The first remaining step is the first of `pieces.skip(done)`.
proof fn lemma_skip_first(pieces: Seq<Piece>, done: int)
    requires
        0 <= done < pieces.len(),
    ensures
        pieces[done] == pieces.skip(done)[0],
        pieces.skip(done).len() == pieces.len() - done,
        pieces.skip(done + 1) =~= pieces.skip(done).drop_first(),
{
}

/// A text or escape step keeps what the earlier callback calls left, and
/// appends its text.
proof fn lemma_plain_step<'a, F: FnMut(&'a str, &mut String) -> CheckFormatResult<'a>>(
    f: F,
    b: Seq<u8>,
    pieces: Seq<Piece>,
    mid: Seq<Seq<char>>,
    done: int,
    next: Seq<char>,
)
    requires
        format_trace(b, pieces, mid, done),
        done < pieces.len(),
        !(pieces[done] is Interp),
        next == mid[done] + piece_text(b, pieces[done]),
        forall|j: int|
            0 <= j < done && #[trigger] pieces[j] is Interp ==> exists|
                x: &'a str,
                buf: &mut String,
                rr: CheckFormatResult<'a>,
            |
                #![trigger f.ensures((x, buf), rr)]
                rr is Ok && f.ensures((x, buf), rr) && x.spec_bytes() == interp_bytes(
                    b,
                    pieces[j],
                ) && (*buf)@ == mid[j] && (*final(buf))@ == mid[j + 1],
    ensures
        format_trace(b, pieces, mid.push(next), done + 1),
        ({
            let mid = mid.push(next);
            let done = done + 1;
            forall|j: int|
            0 <= j < done && #[trigger] pieces[j] is Interp ==> exists|
                x: &'a str,
                buf: &mut String,
                rr: CheckFormatResult<'a>,
            |
                #![trigger f.ensures((x, buf), rr)]
                rr is Ok && f.ensures((x, buf), rr) && x.spec_bytes() == interp_bytes(
                    b,
                    pieces[j],
                ) && (*buf)@ == mid[j] && (*final(buf))@ == mid[j + 1]
        }),
{
    lemma_trace_step(b, pieces, mid, done, next);
    let m = mid.push(next);
    assert forall|j: int| 0 <= j < done + 1 && #[trigger] pieces[j] is Interp implies exists|
            x: &'a str,
            buf: &mut String,
            rr: CheckFormatResult<'a>,
        |
            #![trigger f.ensures((x, buf), rr)]
            rr is Ok && f.ensures((x, buf), rr) && x.spec_bytes() == interp_bytes(b, pieces[j])
                && (*buf)@ == m[j] && (*final(buf))@ == m[j + 1] by {
        assert(m[j] == mid[j] && m[j + 1] == mid[j + 1]);
    }
}

/// A text or escape step appends its text; an interpolation step appends
/// whatever the callback leaves, which `format` states at the call.
pub proof fn lemma_trace_step(
    b: Seq<u8>,
    pieces: Seq<Piece>,
    mid: Seq<Seq<char>>,
    done: int,
    next: Seq<char>,
)
    requires
        format_trace(b, pieces, mid, done),
        done < pieces.len(),
        !(pieces[done] is Interp) ==> next == mid[done] + piece_text(b, pieces[done]),
    ensures
        format_trace(b, pieces, mid.push(next), done + 1),
{
    let m = mid.push(next);
    assert forall|j: int|
        0 <= j < done + 1 && !(#[trigger] pieces[j] is Interp) implies m[j + 1] == m[j]
        + piece_text(b, pieces[j]) by {
        if j < done {
            assert(m[j] == mid[j] && m[j + 1] == mid[j + 1]);
        }
    }
}

/// Every interpolation that `check_format` hands over, from byte `index` on, is
/// the text between a `{` and the first `}` after it, in increasing order.
pub proof fn lemma_check_interpolations_are_braced(b: Seq<u8>, index: int)
    requires
        0 <= index,
    ensures
        forall|k: int|
            0 <= k < check_scan(b, index).0.len() ==> {
                let (lo, hi) = #[trigger] check_scan(b, index).0[k];
                &&& index < lo <= hi < b.len()
                &&& b[lo - 1] == OPEN_BRACE
                &&& b[hi] == CLOSE_BRACE
                &&& forall|j: int| lo <= j < hi ==> b[j] != CLOSE_BRACE
            },
        forall|k: int|
            0 < k < check_scan(b, index).0.len() ==> (#[trigger] check_scan(b, index).0[k]).0
                > check_scan(b, index).0[k - 1].1,
    decreases b.len() - index,
{
    if 0 <= index < b.len() {
        lemma_find_from(b, index, OPEN_BRACE);
        if find_from(b, index, OPEN_BRACE) is None {
            assert(check_scan(b, index).0.len() == 0);
        }
        if let Some(open) = find_from(b, index, OPEN_BRACE) {
            if escaped_at(b, open) {
                lemma_check_interpolations_are_braced(b, open + 2);
                assert(check_scan(b, index) == check_scan(b, open + 2));
            } else {
                lemma_find_from(b, open + 1, CLOSE_BRACE);
                if find_from(b, open + 1, CLOSE_BRACE) is None {
                    assert(check_scan(b, index).0.len() == 0);
                }
                if let Some(close) = find_from(b, open + 1, CLOSE_BRACE) {
                    lemma_check_interpolations_are_braced(b, close + 1);
                    let rest = check_scan(b, close + 1).0;
                    let all = check_scan(b, index).0;
                    assert(all == seq![(open + 1, close)] + rest);
                    assert forall|k: int| 0 <= k < all.len() implies {
                        let (lo, hi) = #[trigger] all[k];
                        &&& index < lo <= hi < b.len()
                        &&& b[lo - 1] == OPEN_BRACE
                        &&& b[hi] == CLOSE_BRACE
                        &&& forall|j: int| lo <= j < hi ==> b[j] != CLOSE_BRACE
                    } by {
                        if k > 0 {
                            assert(all[k] == rest[k - 1]);
                        }
                    }
                    assert forall|k: int| 0 < k < all.len() implies (#[trigger] all[k]).0 > all[k
                        - 1].1 by {
                        assert(all[k] == rest[k - 1]);
                        if k > 1 {
                            assert(all[k - 1] == rest[k - 2]);
                        }
                    }
                }
            }
        }
    }
}

/// The brace that `check_format` reports as unclosed is a `{` that does not
/// start an escaped `{{`, with no `}` anywhere after it.
pub proof fn lemma_check_unclosed_brace(b: Seq<u8>, index: int)
    requires
        0 <= index,
    ensures
        check_scan(b, index).1 matches Some(p) ==> index <= p < b.len() && b[p] == OPEN_BRACE
            && !escaped_at(b, p) && forall|j: int| p < j < b.len() ==> b[j] != CLOSE_BRACE,
    decreases b.len() - index,
{
    if 0 <= index < b.len() {
        lemma_find_from(b, index, OPEN_BRACE);
        if let Some(open) = find_from(b, index, OPEN_BRACE) {
            if escaped_at(b, open) {
                lemma_check_unclosed_brace(b, open + 2);
            } else {
                lemma_find_from(b, open + 1, CLOSE_BRACE);
                if let Some(close) = find_from(b, open + 1, CLOSE_BRACE) {
                    lemma_check_unclosed_brace(b, close + 1);
                }
            }
        }
    }
}

/// The brace that `format` reports as unclosed is a `{`, and the
/// interpolation that starts after it finds no end.
pub proof fn lemma_format_unclosed_brace(b: Seq<u8>, index: int)
    requires
        0 <= index,
    ensures
        format_scan(b, index).1 matches Some(p) ==> index <= p < b.len() && b[p] == OPEN_BRACE
            && close_end(b, p + 1) is None,
    decreases b.len() + 1 - index,
{
    if 0 <= index < b.len() {
        lemma_find_from(b, index, OPEN_BRACE);
        if let Some(open) = find_from(b, index, OPEN_BRACE) {
            if escaped_at(b, open) {
                lemma_format_unclosed_brace(b, open + 2);
            } else {
                lemma_close_end(b, open + 1);
                if let Some(cs) = close_end(b, open + 1) {
                    lemma_format_unclosed_brace(b, cs + 1);
                }
            }
        }
    }
}

/// Text without a `{` has no interpolations: `check_format` calls nothing and
/// `format` copies it unchanged.
pub proof fn lemma_brace_free_text(b: Seq<u8>)
    requires
        forall|j: int| 0 <= j < b.len() ==> b[j] != OPEN_BRACE,
    ensures
        check_scan(b, 0) == (Seq::<(int, int)>::empty(), None::<int>),
        b.len() == 0 ==> format_scan(b, 0) == (Seq::<Piece>::empty(), None::<int>),
        b.len() > 0 ==> format_scan(b, 0) == (seq![Piece::Text(0, b.len() as int)], None::<int>),
{
    if b.len() > 0 {
        lemma_find_from(b, 0, OPEN_BRACE);
    }
}

/// The text that the steps `pieces` append, interpolations left out.
pub open spec fn copied_text(b: Seq<u8>, pieces: Seq<Piece>) -> Seq<char>
    decreases pieces.len(),
{
    if pieces.len() == 0 {
        seq![]
    } else {
        copied_text(b, pieces.drop_last()) + piece_text(b, pieces.last())
    }
}

proof fn lemma_copied_text_concat(b: Seq<u8>, p: Seq<Piece>, q: Seq<Piece>)
    ensures
        copied_text(b, p + q) == copied_text(b, p) + copied_text(b, q),
    decreases q.len(),
{
    if q.len() == 0 {
        assert(p + q =~= p);
        assert(copied_text(b, p) + seq![] =~= copied_text(b, p));
    } else {
        lemma_copied_text_concat(b, p, q.drop_last());
        assert((p + q).drop_last() =~= p + q.drop_last());
        assert((p + q).last() == q.last());
        assert(copied_text(b, p) + copied_text(b, q.drop_last()) + piece_text(b, q.last())
            =~= copied_text(b, p) + (copied_text(b, q.drop_last()) + piece_text(b, q.last())));
    }
}

/// Splitting the decoded text of `b[lo..hi]` at an ASCII edge `mid`.
proof fn lemma_decode_split(b: Seq<u8>, lo: int, mid: int, hi: int)
    requires
        valid_utf8(b),
        0 <= lo <= mid <= hi <= b.len(),
        ascii_edge(b, lo),
        ascii_edge(b, hi),
        ascii_edge(b, mid),
    ensures
        decode_utf8(b.subrange(lo, hi)) == decode_utf8(b.subrange(lo, mid)) + decode_utf8(
            b.subrange(mid, hi),
        ),
{
    broadcast use group_utf8_lib;

    lemma_ascii_edge_is_boundary(b, lo);
    lemma_ascii_edge_is_boundary(b, hi);
    let t0 = b.subrange(lo, b.len() as int);
    assert(valid_utf8(t0));
    assert(ascii_edge(t0, hi - lo)) by {
        if hi < b.len() && b[hi] < 0x80 {
            assert(t0[hi - lo] == b[hi]);
        } else if hi > lo && hi > 0 && b[hi - 1] < 0x80 && hi < b.len() {
            assert(t0[hi - lo - 1] == b[hi - 1]);
        }
    }
    lemma_ascii_edge_is_boundary(t0, hi - lo);
    let t = t0.subrange(0, hi - lo);
    assert(t =~= b.subrange(lo, hi));
    assert(valid_utf8(t));
    let k = mid - lo;
    assert(ascii_edge(t, k)) by {
        if 0 < k < t.len() {
            if mid < b.len() && b[mid] < 0x80 {
                assert(t[k] == b[mid]);
            } else {
                assert(t[k - 1] == b[mid - 1]);
            }
        }
    }
    lemma_ascii_edge_is_boundary(t, k);
    decode_utf8_split(t, k);
    assert(t.subrange(0, k) =~= b.subrange(lo, mid));
    assert(t.subrange(k, t.len() as int) =~= b.subrange(mid, hi));
}

/// From byte `i` on, where `format` meets no interpolation and no unclosed
/// brace, its steps copy the text as it stands.
proof fn lemma_scan_copies(b: Seq<u8>, i: int)
    requires
        valid_utf8(b),
        0 <= i <= b.len(),
        ascii_edge(b, i),
        format_scan(b, i).1 is None,
        forall|j: int|
            0 <= j < format_scan(b, i).0.len() ==> !(#[trigger] format_scan(b, i).0[j] is Interp),
    ensures
        copied_text(b, format_scan(b, i).0) == decode_utf8(b.subrange(i, b.len() as int)),
    decreases b.len() - i,
{
    broadcast use group_utf8_lib;

    if i == b.len() {
        assert(b.subrange(i, b.len() as int) =~= Seq::<u8>::empty());
        assert(valid_utf8(Seq::<u8>::empty()));
        assert(decode_utf8(Seq::<u8>::empty()) == Seq::<char>::empty());
    } else {
        lemma_find_from(b, i, OPEN_BRACE);
        if let Some(open) = find_from(b, i, OPEN_BRACE) {
            if escaped_at(b, open) {
                let rest = format_scan(b, open + 2);
                let head = seq![Piece::Text(i, open), Piece::Escape];
                assert(format_scan(b, i) == (head + rest.0, rest.1));
                assert forall|j: int| 0 <= j < rest.0.len() implies !(#[trigger] rest.0[j] is Interp) by {
                    assert(format_scan(b, i).0[j + 2] == rest.0[j]);
                }
                lemma_scan_copies(b, open + 2);
                lemma_copied_text_concat(b, head, rest.0);
                assert(copied_text(b, head) == decode_utf8(b.subrange(i, open)) + seq!['{', '{']) by {
                    let one = seq![Piece::Text(i, open)];
                    assert(head.drop_last() =~= one);
                    assert(one.drop_last() =~= Seq::<Piece>::empty());
                    assert(one.last() == Piece::Text(i, open));
                    assert(copied_text(b, Seq::<Piece>::empty()) == Seq::<char>::empty());
                    assert(copied_text(b, one) =~= decode_utf8(b.subrange(i, open)));
                    assert(head.last() == Piece::Escape);
                }
                lemma_decode_split(b, i, open, b.len() as int);
                lemma_decode_split(b, open, open + 2, b.len() as int);
                let pair = b.subrange(open, open + 2);
                assert(pair =~= encode_utf8(seq!['{', '{'])) by {
                    assert(is_ascii_chars(seq!['{', '{']));
                    assert(encode_utf8(seq!['{', '{']).len() == 2);
                    assert(seq!['{', '{'][0] as u8 == encode_utf8(seq!['{', '{'])[0]);
                    assert(seq!['{', '{'][1] as u8 == encode_utf8(seq!['{', '{'])[1]);
                }
            } else {
                lemma_close_end(b, open + 1);
                if let Some(cs) = close_end(b, open + 1) {
                    assert(format_scan(b, i).0[1] == Piece::Interp(open + 1, cs));
                }
            }
        } else {
            let one = seq![Piece::Text(i, b.len() as int)];
            assert(format_scan(b, i).0 =~= one);
            assert(one.drop_last() =~= Seq::<Piece>::empty());
            assert(one.last() == Piece::Text(i, b.len() as int));
            assert(copied_text(b, Seq::<Piece>::empty()) == Seq::<char>::empty());
            assert(copied_text(b, one) =~= decode_utf8(b.subrange(i, b.len() as int)));
        }
    }
}

/// `mid[j]`, as `format_trace` builds it without interpolations, is the text of
/// the first `j` steps.
proof fn lemma_trace_copies(b: Seq<u8>, pieces: Seq<Piece>, mid: Seq<Seq<char>>, done: int, j: int)
    requires
        format_trace(b, pieces, mid, done),
        0 <= j <= done,
        forall|i: int| 0 <= i < done ==> !(#[trigger] pieces[i] is Interp),
    ensures
        mid[j] == copied_text(b, pieces.take(j)),
    decreases j,
{
    if j > 0 {
        lemma_trace_copies(b, pieces, mid, done, j - 1);
        assert(pieces.take(j).drop_last() =~= pieces.take(j - 1));
        assert(pieces.take(j).last() == pieces[j - 1]);
    }
}

/// A text that `format` reads without meeting an interpolation or an unclosed
/// brace (plain text with escaped `{{` pairs) comes back unchanged: the buffer
/// after all steps is the text itself.
pub proof fn lemma_plain_format_copies(b: Seq<u8>, mid: Seq<Seq<char>>)
    requires
        valid_utf8(b),
        format_scan(b, 0).1 is None,
        forall|j: int|
            0 <= j < format_scan(b, 0).0.len() ==> !(#[trigger] format_scan(b, 0).0[j] is Interp),
        format_trace(b, format_scan(b, 0).0, mid, format_scan(b, 0).0.len() as int),
    ensures
        mid[format_scan(b, 0).0.len() as int] == decode_utf8(b),
{
    let pieces = format_scan(b, 0).0;
    lemma_trace_copies(b, pieces, mid, pieces.len() as int, pieces.len() as int);
    assert(pieces.take(pieces.len() as int) =~= pieces);
    lemma_scan_copies(b, 0);
    assert(b.subrange(0, b.len() as int) =~= b);
}

/// Whether no `}` in `b` is directly followed by another `}`.
pub open spec fn no_doubled_close(b: Seq<u8>) -> bool {
    forall|j: int| 0 <= j && j + 1 < b.len() && #[trigger] b[j] == CLOSE_BRACE ==> b[j + 1] != CLOSE_BRACE
}

/// The byte ranges of the interpolation steps among `pieces`, in order.
pub open spec fn interps(pieces: Seq<Piece>) -> Seq<(int, int)>
    decreases pieces.len(),
{
    if pieces.len() == 0 {
        seq![]
    } else {
        interps(pieces.drop_last()) + match pieces.last() {
            Piece::Interp(lo, hi) => seq![(lo, hi)],
            _ => seq![],
        }
    }
}

proof fn lemma_interps_concat(p: Seq<Piece>, q: Seq<Piece>)
    ensures
        interps(p + q) == interps(p) + interps(q),
    decreases q.len(),
{
    if q.len() == 0 {
        assert(p + q =~= p);
        assert(interps(p) + seq![] =~= interps(p));
    } else {
        lemma_interps_concat(p, q.drop_last());
        assert((p + q).drop_last() =~= p + q.drop_last());
        assert((p + q).last() == q.last());
        let tail = match q.last() {
            Piece::Interp(lo, hi) => seq![(lo, hi)],
            _ => Seq::<(int, int)>::empty(),
        };
        assert(interps(p) + interps(q.drop_last()) + tail =~= interps(p) + (interps(q.drop_last())
            + tail));
    }
}

/// Where no `}}` occurs, `check_format` and `format` see the same
/// interpolations, in the same order, and report the same unclosed brace;
/// except that a `{` as the last byte, which `check_format` reports as
/// unclosed, is an empty interpolation at the end for `format`.
pub proof fn lemma_scanners_agree(b: Seq<u8>, i: int)
    requires
        0 <= i,
        no_doubled_close(b),
    ensures
        check_scan(b, i).1 == Some(b.len() - 1) ==> interps(format_scan(b, i).0) == check_scan(
            b,
            i,
        ).0.push((b.len() as int, b.len() as int)) && format_scan(b, i).1 is None,
        check_scan(b, i).1 != Some(b.len() - 1) ==> interps(format_scan(b, i).0) == check_scan(
            b,
            i,
        ).0 && format_scan(b, i).1 == check_scan(b, i).1,
    decreases b.len() + 1 - i,
{
    if i >= b.len() {
        assert(interps(Seq::<Piece>::empty()) == Seq::<(int, int)>::empty());
    } else {
        lemma_find_from(b, i, OPEN_BRACE);
        if let Some(open) = find_from(b, i, OPEN_BRACE) {
            let text = seq![Piece::Text(i, open)];
            assert(interps(text) =~= Seq::<(int, int)>::empty()) by {
                assert(text.drop_last() =~= Seq::<Piece>::empty());
                assert(text.last() == Piece::Text(i, open));
                assert(interps(Seq::<Piece>::empty()) == Seq::<(int, int)>::empty());
            }
            if escaped_at(b, open) {
                lemma_scanners_agree(b, open + 2);
                let rest = format_scan(b, open + 2);
                let head = seq![Piece::Text(i, open), Piece::Escape];
                assert(format_scan(b, i) == (head + rest.0, rest.1));
                assert(interps(head) =~= Seq::<(int, int)>::empty()) by {
                    assert(head.drop_last() =~= text);
                }
                lemma_interps_concat(head, rest.0);
                assert(interps(head + rest.0) =~= interps(rest.0));
            } else {
                lemma_find_from(b, open + 1, CLOSE_BRACE);
                lemma_close_end(b, open + 1);
                if let Some(close) = find_from(b, open + 1, CLOSE_BRACE) {
                    assert(close_end(b, open + 1) == Some(close)) by {
                        if close + 1 < b.len() {
                            assert(b[close] == CLOSE_BRACE);
                        }
                    }
                    lemma_scanners_agree(b, close + 1);
                    let rest = format_scan(b, close + 1);
                    let head = seq![Piece::Text(i, open), Piece::Interp(open + 1, close)];
                    assert(format_scan(b, i) == (head + rest.0, rest.1));
                    assert(interps(head) =~= seq![(open + 1, close)]) by {
                        assert(head.drop_last() =~= text);
                    }
                    lemma_interps_concat(head, rest.0);
                    let crest = check_scan(b, close + 1);
                    assert(check_scan(b, i) == (seq![(open + 1, close)] + crest.0, crest.1));
                    assert((seq![(open + 1, close)] + crest.0).push((b.len() as int, b.len() as int))
                        =~= seq![(open + 1, close)] + crest.0.push((b.len() as int, b.len() as int)));
                } else if open + 1 >= b.len() {
                    let head = seq![Piece::Text(i, open), Piece::Interp(open + 1, open + 1)];
                    assert(format_scan(b, open + 2) == (Seq::<Piece>::empty(), None::<int>));
                    assert(format_scan(b, i) == (head + Seq::<Piece>::empty(), None::<int>));
                    assert(head + Seq::<Piece>::empty() =~= head);
                    assert(interps(head) =~= seq![(open + 1, open + 1)]) by {
                        assert(head.drop_last() =~= text);
                    }
                    assert(check_scan(b, i) == (Seq::<(int, int)>::empty(), Some(open)));
                    assert(Seq::<(int, int)>::empty().push((b.len() as int, b.len() as int))
                        =~= seq![(open + 1, open + 1)]);
                } else {
                    assert(close_end(b, open + 1) is None);
                    assert(format_scan(b, i) == (text, Some(open)));
                }
            }
        } else {
            let one = seq![Piece::Text(i, b.len() as int)];
            assert(format_scan(b, i).0 =~= one);
            assert(interps(one) =~= Seq::<(int, int)>::empty()) by {
                assert(one.drop_last() =~= Seq::<Piece>::empty());
                assert(one.last() == Piece::Text(i, b.len() as int));
                assert(interps(Seq::<Piece>::empty()) == Seq::<(int, int)>::empty());
            }
        }
    }
}

} // verus!
