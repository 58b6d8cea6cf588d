//! Extraction of the endpoint from a request line.
//!
//! A request line has the form `"<METHOD> <PATH> <PROTOCOL>"`. Its endpoint is
//! the second whitespace-delimited token, or `"/"` when the line holds fewer
//! than two tokens.

use std::str::Chars;
use vstd::prelude::*;
use vstd::std_specs::iter::IteratorSpec;
use vstd::string::StrSliceExecFns;
use vstd::utf8::encode_scalar;
use vstd::utf8::encode_utf8;

verus! {

/// The characters that separate tokens: those with the Unicode `White_Space`
/// property.
pub open spec fn is_whitespace(c: char) -> bool {
    let u = c as u32;
    ||| 0x09 <= u <= 0x0D
    ||| u == 0x20
    ||| u == 0x85
    ||| u == 0xA0
    ||| u == 0x1680
    ||| 0x2000 <= u <= 0x200A
    ||| u == 0x2028
    ||| u == 0x2029
    ||| u == 0x202F
    ||| u == 0x205F
    ||| u == 0x3000
}

/// The end of the run that starts at `from` and in which every character is
/// whitespace (`whitespace == true`) or every character is not
/// (`whitespace == false`): the first index at or after `from` whose character
/// is of the other kind, or the length of `text` when there is none.
pub open spec fn run_end(text: Seq<char>, from: int, whitespace: bool) -> int
    decreases text.len() - from,
{
    if 0 <= from < text.len() && is_whitespace(text[from]) == whitespace {
        run_end(text, from + 1, whitespace)
    } else {
        from
    }
}

/// Where the first token at or after `from` starts (the length of `text` when
/// only whitespace follows).
pub open spec fn token_start(text: Seq<char>, from: int) -> int {
    run_end(text, from, true)
}

/// Where the token that starts at `start` ends (exclusive).
pub open spec fn token_end(text: Seq<char>, start: int) -> int {
    run_end(text, start, false)
}

/// Where the second token of `text` starts (the length of `text` when there
/// are fewer than two tokens).
pub open spec fn second_token_start(text: Seq<char>) -> int {
    token_start(text, token_end(text, token_start(text, 0)))
}

/// The endpoint of a request line: its second whitespace-delimited token, or
/// `"/"` when it has fewer than two tokens.
pub open spec fn endpoint_of(request: Seq<char>) -> Seq<char> {
    let start = second_token_start(request);
    if start < request.len() {
        request.subrange(start, token_end(request, start))
    } else {
        seq!['/']
    }
}

/// A run ends within the text, everything in it is of the run's kind, and the
/// character that ends it (if any) is of the other kind.
pub proof fn lemma_run_end(text: Seq<char>, from: int, whitespace: bool)
    requires
        0 <= from <= text.len(),
    ensures
        from <= run_end(text, from, whitespace) <= text.len(),
        forall|i: int|
            from <= i < run_end(text, from, whitespace) ==> is_whitespace(#[trigger] text[i])
                == whitespace,
        run_end(text, from, whitespace) < text.len() ==> is_whitespace(
            text[run_end(text, from, whitespace)],
        ) != whitespace,
    decreases text.len() - from,
{
    if from < text.len() && is_whitespace(text[from]) == whitespace {
        lemma_run_end(text, from + 1, whitespace);
    }
}

/// A run that is entered anywhere inside ends where the whole run ends.
pub proof fn lemma_run_end_from_inside(text: Seq<char>, from: int, inside: int, whitespace: bool)
    requires
        0 <= from <= inside <= run_end(text, from, whitespace),
    ensures
        run_end(text, inside, whitespace) == run_end(text, from, whitespace),
    decreases inside - from,
{
    if from < inside {
        lemma_run_end(text, from, whitespace);
        lemma_run_end_from_inside(text, from + 1, inside, whitespace);
    }
}

/// A stretch of characters of one kind that cannot be extended is a run.
pub proof fn lemma_run_end_is(text: Seq<char>, from: int, stop: int, whitespace: bool)
    requires
        0 <= from <= stop <= text.len(),
        forall|i: int| from <= i < stop ==> is_whitespace(#[trigger] text[i]) == whitespace,
        stop < text.len() ==> is_whitespace(text[stop]) != whitespace,
    ensures
        run_end(text, from, whitespace) == stop,
    decreases stop - from,
{
    if from < stop {
        lemma_run_end_is(text, from + 1, stop, whitespace);
    }
}

/// Whatever stands between the second and the third stretch of whitespace is
/// the endpoint: the request line may start with whitespace, its first token
/// is `[first, first_end)`, and its second token `[start, end)` is followed
/// by whitespace or by nothing.
pub proof fn lemma_endpoint_of_second_token(
    request: Seq<char>,
    first: int,
    first_end: int,
    start: int,
    end: int,
)
    requires
        0 <= first < first_end < start < end <= request.len(),
        forall|i: int| 0 <= i < first ==> is_whitespace(#[trigger] request[i]),
        forall|i: int| first <= i < first_end ==> !is_whitespace(#[trigger] request[i]),
        forall|i: int| first_end <= i < start ==> is_whitespace(#[trigger] request[i]),
        forall|i: int| start <= i < end ==> !is_whitespace(#[trigger] request[i]),
        end < request.len() ==> is_whitespace(request[end]),
    ensures
        endpoint_of(request) == request.subrange(start, end),
{
    lemma_run_end_is(request, 0, first, true);
    lemma_run_end_is(request, first, first_end, false);
    lemma_run_end_is(request, first_end, start, true);
    lemma_run_end_is(request, start, end, false);
}

/// A request line of whitespace only, or with nothing but whitespace after
/// its first token `[first, first_end)`, has the endpoint `"/"`.
pub proof fn lemma_endpoint_of_missing_token(request: Seq<char>, first: int, first_end: int)
    requires
        0 <= first <= first_end <= request.len(),
        forall|i: int| 0 <= i < first ==> is_whitespace(#[trigger] request[i]),
        forall|i: int| first <= i < first_end ==> !is_whitespace(#[trigger] request[i]),
        forall|i: int| first_end <= i < request.len() ==> is_whitespace(#[trigger] request[i]),
    ensures
        endpoint_of(request) == seq!['/'],
{
    if first < first_end {
        lemma_run_end_is(request, 0, first, true);
        lemma_run_end_is(request, first, first_end, false);
        lemma_run_end_is(request, first_end, request.len() as int, true);
    } else {
        lemma_run_end_is(request, 0, request.len() as int, true);
        lemma_run_end_is(request, request.len() as int, request.len() as int, false);
        lemma_run_end_is(request, request.len() as int, request.len() as int, true);
    }
}

/// The endpoint is never empty and holds no whitespace.
pub proof fn lemma_endpoint_is_token(request: Seq<char>)
    ensures
        endpoint_of(request).len() > 0,
        forall|i: int|
            0 <= i < endpoint_of(request).len() ==> !is_whitespace(
                #[trigger] endpoint_of(request)[i],
            ),
{
    let first = token_start(request, 0);
    lemma_run_end(request, 0, true);
    let first_end = token_end(request, first);
    lemma_run_end(request, first, false);
    let start = second_token_start(request);
    lemma_run_end(request, first_end, true);
    lemma_run_end(request, start, false);
}

/// A text has no more characters than its UTF-8 encoding has bytes.
proof fn lemma_chars_within_bytes(chars: Seq<char>)
    ensures
        chars.len() <= encode_utf8(chars).len(),
    decreases chars.len(),
{
    if chars.len() > 0 {
        lemma_chars_within_bytes(chars.drop_first());
        assert(encode_scalar(chars[0] as u32).len() >= 1);
    }
}

/// Tells whether `c` separates tokens.
pub fn char_is_whitespace(c: char) -> (whitespace: bool)
    ensures
        whitespace == is_whitespace(c),
{
    let u: u32 = c as u32;
    (0x09 <= u && u <= 0x0D) || u == 0x20 || u == 0x85 || u == 0xA0 || u == 0x1680 || (0x2000 <= u
        && u <= 0x200A) || u == 0x2028 || u == 0x2029 || u == 0x202F || u == 0x205F || u == 0x3000
}

/// Reads characters up to and including the one that ends the current run.
///
/// `pos` counts the characters read so far. Returns whether the run ended
/// before the text did; the character that ended it has then been read too.
fn read_run(
    chars: &mut Chars<'_>,
    pos: &mut usize,
    whitespace: bool,
    Ghost(text): Ghost<Seq<char>>,
) -> (ended: bool)
    requires
        *old(pos) <= text.len() <= usize::MAX,
        (*old(chars)).remaining() == text.skip(*old(pos) as int),
        (*old(chars)).decrease() is Some,
    ensures
        (*final(chars)).remaining() == text.skip(*final(pos) as int),
        (*final(chars)).decrease() is Some,
        *final(pos) <= text.len(),
        ended ==> *final(pos) == run_end(text, *old(pos) as int, whitespace) + 1,
        !ended ==> *final(pos) == text.len() && run_end(text, *old(pos) as int, whitespace)
            == text.len(),
{
    loop
        invariant
            *pos <= text.len() <= usize::MAX,
            (*chars).remaining() == text.skip(*pos as int),
            (*chars).decrease() is Some,
            run_end(text, *pos as int, whitespace) == run_end(text, *old(pos) as int, whitespace),
        decreases (*chars).decrease()->0,
    {
        match chars.next() {
            None => {
                return false;
            },
            Some(c) => {
                assert(c == text[*pos as int]);
                assert(text.skip(*pos as int).drop_first() == text.skip(*pos as int + 1));
                let of_run = char_is_whitespace(c) == whitespace;
                *pos = *pos + 1;
                if !of_run {
                    return true;
                }
            },
        }
    }
}

/// The endpoint of a request line: its second whitespace-delimited token, or
/// `"/"` when it has fewer than two tokens.
pub fn endpoint(request: &str) -> (e: String)
    ensures
        e@ == endpoint_of(request@),
{
    proof {
        reveal_strlit("/");
        lemma_chars_within_bytes(request@);
    }
    // The text is held as UTF-8 bytes, so it has no more characters than fit
    // in a `usize`.
    let bytes = request.as_bytes();
    assert(request@.len() <= bytes@.len() == bytes.len() <= usize::MAX);
    let ghost text = request@;
    let mut chars = request.chars();
    let mut pos: usize = 0;
    assert(text.skip(0) == text);
    if !read_run(&mut chars, &mut pos, true, Ghost(text)) {
        return "/".to_owned();
    }
    let ghost first = pos - 1;
    proof {
        lemma_run_end(text, 0, true);
        lemma_run_end(text, first, false);
        lemma_run_end_from_inside(text, first, first + 1, false);
    }
    if !read_run(&mut chars, &mut pos, false, Ghost(text)) {
        return "/".to_owned();
    }
    let ghost first_end = pos - 1;
    proof {
        lemma_run_end(text, first_end, true);
        lemma_run_end_from_inside(text, first_end, first_end + 1, true);
    }
    if !read_run(&mut chars, &mut pos, true, Ghost(text)) {
        return "/".to_owned();
    }
    let start: usize = pos - 1;
    proof {
        lemma_run_end(text, start as int, false);
        lemma_run_end_from_inside(text, start as int, start + 1, false);
    }
    let ended = read_run(&mut chars, &mut pos, false, Ghost(text));
    let end: usize = if ended {
        pos - 1
    } else {
        pos
    };
    request.substring_char(start, end).to_owned()
}

} // verus!
