//! Transcript search: the pattern handed to the database, and the snippet of
//! context shown around the first match in each transcript.

use vstd::prelude::*;
use vstd::string::StrSliceExecFns;
use vstd::string::StringExecFns;
use vstd::string::StringSliceAdditionalSpecFns;
use vstd::utf8::*;
use crate::transcripts::TranscriptsRepository;
use crate::text::{
    ascii_folded, ascii_lower_code, find_bytes, first_occurrence, is_blank, is_blank_text,
    is_first_occurrence, lemma_first_occurrence_unique, lowercase, occurs_at, to_lowercase,
};

verus! {

/// The byte range of `transcript` shown around the first match of `query`:
/// up to 100 bytes before the match and up to 100 bytes after a stretch as
/// long as the query, cut at the end of the transcript. The match is sought
/// in the lowercase forms of both, by byte position.
pub open spec fn match_window(transcript: Seq<char>, query: Seq<char>) -> Option<(int, int)> {
    match first_occurrence(encode_utf8(lowercase(transcript)), encode_utf8(lowercase(query))) {
        Some(m) => Some(
            (
                if m >= 100 {
                    m - 100
                } else {
                    0
                },
                if m + encode_utf8(query).len() + 100 <= encode_utf8(transcript).len() {
                    m + encode_utf8(query).len() + 100
                } else {
                    encode_utf8(transcript).len() as int
                },
            ),
        ),
        None => None,
    }
}

/// The window can be cut out of the transcript: it is a range whose ends
/// fall on character boundaries. (Lowercasing can change byte lengths, so a
/// position found in the lowercase text need not be one in the transcript itself.)
pub open spec fn window_fits(transcript: Seq<char>, query: Seq<char>) -> bool {
    match match_window(transcript, query) {
        Some((start, end)) => start <= end && is_char_boundary(encode_utf8(transcript), start)
            && is_char_boundary(encode_utf8(transcript), end),
        None => true,
    }
}

/// The snippet for `transcript`: the window around the first match, with
/// `...` where text was cut off before or after it; without a match, the
/// first 200 characters.
pub open spec fn match_context(transcript: Seq<char>, query: Seq<char>) -> Seq<char> {
    match match_window(transcript, query) {
        Some((start, end)) => (if start > 0 {
            "..."@
        } else {
            Seq::<char>::empty()
        }) + decode_utf8(encode_utf8(transcript).subrange(start, end)) + (if end < encode_utf8(
            transcript,
        ).len() {
            "..."@
        } else {
            Seq::<char>::empty()
        }),
        None => if transcript.len() <= 200 {
            transcript
        } else {
            transcript.subrange(0, 200)
        },
    }
}

proof fn lemma_boundary_in_prefix(bytes: Seq<u8>, a: int, b: int)
    requires
        valid_utf8(bytes),
        0 <= a <= b <= bytes.len(),
        is_char_boundary(bytes, a),
        is_char_boundary(bytes, b),
    ensures
        is_char_boundary(bytes.subrange(0, b), a),
        valid_utf8(bytes.subrange(0, b)),
{
    valid_utf8_split(bytes, b);
    let prefix = bytes.subrange(0, b);
    if a == b {
        is_char_boundary_start_end_of_seq(prefix);
    } else if a > 0 {
        is_char_boundary_iff_not_is_continuation_byte(bytes, a);
        is_char_boundary_iff_not_is_continuation_byte(prefix, a);
        assert(prefix[a] == bytes[a]);
    }
}

/// On ASCII text `s`, lowercasing folds `A` to `Z` onto `a` to `z` and keeps
/// everything else, character for character.
pub open spec fn folds_ascii(s: Seq<char>) -> bool {
    lowercase(s).len() == s.len() && forall|i: int|
        0 <= i < s.len() ==> (#[trigger] lowercase(s)[i]) as int == ascii_lower_code(s[i] as int)
}

/// The snippet on ASCII text, in character positions: the first match of the
/// query in the transcript, ignoring ASCII case, with up to 100 characters
/// before it and up to 100 after a stretch as long as the query, and `...`
/// where text was cut off; without a match, the first 200 characters.
pub open spec fn ascii_match_context(transcript: Seq<char>, query: Seq<char>) -> Seq<char> {
    match first_occurrence(ascii_folded(transcript), ascii_folded(query)) {
        Some(m) => {
            let start = if m >= 100 {
                m - 100
            } else {
                0
            };
            let end = if m + query.len() + 100 <= transcript.len() {
                m + query.len() + 100
            } else {
                transcript.len() as int
            };
            (if start > 0 {
                "..."@
            } else {
                Seq::<char>::empty()
            }) + transcript.subrange(start, end) + (if end < transcript.len() {
                "..."@
            } else {
                Seq::<char>::empty()
            })
        },
        None => if transcript.len() <= 200 {
            transcript
        } else {
            transcript.subrange(0, 200)
        },
    }
}

proof fn lemma_same_first_occurrence(h8: Seq<u8>, n8: Seq<u8>, h32: Seq<int>, n32: Seq<int>)
    requires
        h8.len() == h32.len(),
        n8.len() == n32.len(),
        forall|i: int| 0 <= i < h8.len() ==> h8[i] as int == h32[i],
        forall|i: int| 0 <= i < n8.len() ==> n8[i] as int == n32[i],
    ensures
        first_occurrence(h8, n8) == first_occurrence(h32, n32),
{
    assert forall|i: int| occurs_at(h8, n8, i) <==> occurs_at(h32, n32, i) by {
        if 0 <= i && i + n8.len() <= h8.len() {
            if occurs_at(h8, n8, i) {
                assert forall|k: int| 0 <= k < n32.len() implies #[trigger] h32.subrange(i, i + n32.len())[k] == n32[k] by {
                    assert(h8.subrange(i, i + n8.len())[k] == n8[k]);
                }
                assert(h32.subrange(i, i + n32.len()) =~= n32);
            }
            if occurs_at(h32, n32, i) {
                assert forall|k: int| 0 <= k < n8.len() implies #[trigger] h8.subrange(i, i + n8.len())[k] == n8[k] by {
                    assert(h32.subrange(i, i + n32.len())[k] == n32[k]);
                }
                assert(h8.subrange(i, i + n8.len()) =~= n8);
            }
        }
    }
    if exists|i: int| is_first_occurrence(h8, n8, i) {
        let i = choose|i: int| is_first_occurrence(h8, n8, i);
        lemma_first_occurrence_unique(h8, n8, i);
        assert(is_first_occurrence(h32, n32, i));
        lemma_first_occurrence_unique(h32, n32, i);
    } else if exists|i: int| is_first_occurrence(h32, n32, i) {
        let i = choose|i: int| is_first_occurrence(h32, n32, i);
        assert(is_first_occurrence(h8, n8, i));
    }
}

proof fn lemma_ascii_bytes(s: Seq<char>)
    requires
        is_ascii_chars(s),
    ensures
        encode_utf8(s).len() == s.len(),
        forall|i: int| 0 <= i < s.len() ==> (#[trigger] encode_utf8(s)[i]) as int == s[i] as int,
        forall|i: int| 0 <= i < s.len() ==> (#[trigger] encode_utf8(s)[i]) < 128,
{
    is_ascii_chars_encode_utf8(s);
    assert forall|i: int| 0 <= i < s.len() implies (#[trigger] encode_utf8(s)[i]) as int == s[i] as int
        && encode_utf8(s)[i] < 128 by {
        assert(s[i] as u8 == encode_utf8(s)[i]);
        assert(s[i] <= '\u{7f}');
    }
}

proof fn lemma_ascii_boundary(bytes: Seq<u8>, index: int)
    requires
        valid_utf8(bytes),
        0 <= index <= bytes.len(),
        forall|i: int| 0 <= i < bytes.len() ==> #[trigger] bytes[i] < 128,
    ensures
        is_char_boundary(bytes, index),
{
    if index == bytes.len() {
        is_char_boundary_start_end_of_seq(bytes);
    } else {
        is_char_boundary_iff_not_is_continuation_byte(bytes, index);
    }
}

/// On ASCII text the window always fits, and the snippet is the one cut at
/// the character (and byte) positions of the first case-insensitive match.
proof fn lemma_ascii_context(transcript: Seq<char>, query: Seq<char>)
    requires
        is_ascii_chars(transcript),
        is_ascii_chars(query),
        folds_ascii(transcript),
        folds_ascii(query),
    ensures
        window_fits(transcript, query),
        match_context(transcript, query) == ascii_match_context(transcript, query),
{
    let lt = lowercase(transcript);
    let lq = lowercase(query);
    assert forall|i: int| 0 <= i < lt.len() implies '\0' <= #[trigger] lt[i] <= '\u{7f}' by {
        assert(transcript[i] <= '\u{7f}');
        assert(lt[i] as int == ascii_lower_code(transcript[i] as int));
    }
    assert forall|i: int| 0 <= i < lq.len() implies '\0' <= #[trigger] lq[i] <= '\u{7f}' by {
        assert(query[i] <= '\u{7f}');
        assert(lq[i] as int == ascii_lower_code(query[i] as int));
    }
    lemma_ascii_bytes(lt);
    lemma_ascii_bytes(lq);
    lemma_ascii_bytes(transcript);
    lemma_ascii_bytes(query);
    let h8 = encode_utf8(lt);
    let n8 = encode_utf8(lq);
    let h32 = ascii_folded(transcript);
    let n32 = ascii_folded(query);
    assert forall|i: int| 0 <= i < h8.len() implies h8[i] as int == h32[i] by {
        assert(h8[i] as int == lt[i] as int);
    }
    assert forall|i: int| 0 <= i < n8.len() implies n8[i] as int == n32[i] by {
        assert(n8[i] as int == lq[i] as int);
    }
    lemma_same_first_occurrence(h8, n8, h32, n32);
    let bytes = encode_utf8(transcript);
    encode_utf8_valid_utf8(transcript);
    match first_occurrence(h8, n8) {
        Some(m) => {
            let k = choose|i: int| is_first_occurrence(h8, n8, i);
            assert(is_first_occurrence(h8, n8, k));
            assert(m == k);
            let start = if m >= 100 {
                m - 100
            } else {
                0
            };
            let end = if m + query.len() + 100 <= transcript.len() {
                m + query.len() + 100
            } else {
                transcript.len() as int
            };
            assert(match_window(transcript, query) == Some((start, end)));
            lemma_ascii_boundary(bytes, start);
            lemma_ascii_boundary(bytes, end);
            let part = transcript.subrange(start, end);
            assert(is_ascii_chars(part));
            lemma_ascii_bytes(part);
            assert forall|i: int| 0 <= i < part.len() implies #[trigger] encode_utf8(part)[i] == bytes.subrange(start, end)[i] by {
                assert(encode_utf8(part)[i] as int == part[i] as int);
                assert(bytes[start + i] as int == transcript[start + i] as int);
            }
            assert(encode_utf8(part) =~= bytes.subrange(start, end));
            encode_utf8_decode_utf8(part);
        },
        None => {},
    }
}

/// The window around a match found at byte `m` of the lowercase transcript
/// starts 100 bytes before it (at the start when the match is nearer) and
/// ends 100 bytes after a stretch as long as the query in bytes, or at the
/// last byte of the transcript when that is nearer: lengths count bytes of
/// the transcript itself, not characters and not the lowercase form, so
/// non-ASCII text is cut at the same places as ASCII text. When the
/// transcript ends within that reach, the snippet runs to its end with no
/// trailing `...`; otherwise one follows. A `...` leads only where text
/// before the window was cut off.
pub proof fn lemma_window_is_counted_in_bytes(transcript: Seq<char>, query: Seq<char>, m: int)
    requires
        first_occurrence(encode_utf8(lowercase(transcript)), encode_utf8(lowercase(query))) == Some(m),
    ensures
        ({
            let start = if m >= 100 { m - 100 } else { 0 };
            let reach = m + encode_utf8(query).len() + 100;
            let total = encode_utf8(transcript).len() as int;
            let end = if reach <= total { reach } else { total };
            &&& match_window(transcript, query) == Some((start, end))
            &&& reach >= total ==> match_context(transcript, query) == (if m > 100 {
                "..."@
            } else {
                Seq::<char>::empty()
            }) + decode_utf8(encode_utf8(transcript).subrange(start, total))
            &&& reach < total ==> match_context(transcript, query) == (if m > 100 {
                "..."@
            } else {
                Seq::<char>::empty()
            }) + decode_utf8(encode_utf8(transcript).subrange(start, reach)) + "..."@
        }),
{
}

/// A transcript whose match lies within its first 100 bytes and which ends
/// within 100 bytes after the match is shown whole, with no `...` on either
/// side.
pub proof fn lemma_short_transcript_shown_whole(transcript: Seq<char>, query: Seq<char>, m: int)
    requires
        first_occurrence(encode_utf8(lowercase(transcript)), encode_utf8(lowercase(query))) == Some(m),
        m < 100,
        encode_utf8(transcript).len() <= m + encode_utf8(query).len() + 100,
    ensures
        match_context(transcript, query) == transcript,
{
    let bytes = encode_utf8(transcript);
    assert(bytes.subrange(0, bytes.len() as int) =~= bytes);
    encode_utf8_decode_utf8(transcript);
    assert(Seq::<char>::empty() + decode_utf8(bytes) =~= transcript);
}

/// The window around the first match of `query` in `transcript`.
fn find_window(transcript: &str, query: &str) -> (window: Option<(usize, usize)>)
    ensures
        match window {
            Some((s, e)) => match_window(transcript@, query@) == Some((s as int, e as int)),
            None => match_window(transcript@, query@) is None,
        },
        is_ascii_chars(transcript@) ==> folds_ascii(transcript@),
        is_ascii_chars(query@) ==> folds_ascii(query@),
{
    let lower = to_lowercase(transcript);
    let lower_query = to_lowercase(query);
    match find_bytes(lower.as_str().as_bytes(), lower_query.as_str().as_bytes()) {
        Some(m) => {
            let start = m.saturating_sub(100);
            let query_len = query.as_bytes().len();
            let transcript_len = transcript.as_bytes().len();
            let reach = m.saturating_add(query_len).saturating_add(100);
            let end = if reach < transcript_len {
                reach
            } else {
                transcript_len
            };
            Some((start, end))
        },
        None => None,
    }
}

/// The snippet, given the window that `find_window` found.
fn cut_context(transcript: &str, query: &str, window: Option<(usize, usize)>) -> (context: String)
    requires
        window_fits(transcript@, query@),
        match window {
            Some((s, e)) => match_window(transcript@, query@) == Some((s as int, e as int)),
            None => match_window(transcript@, query@) is None,
        },
    ensures
        context@ == match_context(transcript@, query@),
{
    match window {
        Some((start, end)) => {
            let ghost bytes = encode_utf8(transcript@);
            proof {
                encode_utf8_valid_utf8(transcript@);
                lemma_boundary_in_prefix(bytes, start as int, end as int);
            }
            let (head, _tail) = transcript.split_at(end);
            let (_before, middle) = head.split_at(start);
            proof {
                assert(middle.spec_bytes() =~= bytes.subrange(start as int, end as int));
                encode_utf8_decode_utf8(middle@);
            }
            let mut context = String::new();
            if start > 0 {
                context.append("...");
            }
            context.append(middle);
            if end < transcript.as_bytes().len() {
                context.append("...");
            }
            proof {
                assert(context@ =~= match_context(transcript@, query@));
            }
            context
        },
        None => {
            let n = transcript.unicode_len();
            let k = if n <= 200 {
                n
            } else {
                200
            };
            let head = transcript.substring_char(0, k);
            let mut context = String::new();
            context.append(head);
            proof {
                assert(context@ =~= match_context(transcript@, query@));
            }
            context
        },
    }
}

impl TranscriptsRepository {
    /// The snippet of `transcript` shown for a search for `query`.
    /// The window fits in particular whenever both texts are ASCII, and then
    /// the snippet is cut at the positions of the first case-insensitive
    /// match.
    pub fn get_match_context(transcript: &str, query: &str) -> (context: String)
        requires
            window_fits(transcript@, query@) || (is_ascii_chars(transcript@) && is_ascii_chars(
                query@,
            )),
        ensures
            context@ == match_context(transcript@, query@),
            is_ascii_chars(transcript@) && is_ascii_chars(query@) ==> context@ == ascii_match_context(
                transcript@,
                query@,
            ),
    {
        let window = find_window(transcript, query);
        proof {
            if is_ascii_chars(transcript@) && is_ascii_chars(query@) {
                lemma_ascii_context(transcript@, query@);
            }
        }
        cut_context(transcript, query, window)
    }

    /// The snippet of `transcript` shown for a search for `query`, or none where
    /// the window around the match cannot be cut out of the transcript.
    pub fn checked_match_context(transcript: &str, query: &str) -> (context: Option<String>)
        ensures
            context is Some <==> window_fits(transcript@, query@),
            context matches Some(c) ==> c@ == match_context(transcript@, query@),
            is_ascii_chars(transcript@) && is_ascii_chars(query@) ==> context is Some
                && context->0@ == ascii_match_context(transcript@, query@),
    {
        let window = find_window(transcript, query);
        let fits = match window {
            Some((start, end)) => start <= end && transcript.is_char_boundary(start)
                && transcript.is_char_boundary(end),
            None => true,
        };
        proof {
            if is_ascii_chars(transcript@) && is_ascii_chars(query@) {
                lemma_ascii_context(transcript@, query@);
            }
        }
        if fits {
            Some(Self::get_match_context(transcript, query))
        } else {
            None
        }
    }

    /// The `LIKE` pattern that finds transcripts containing `query` in any case,
    /// or none when the query is blank and nothing is searched.
    pub fn search_pattern(query: &str) -> (pattern: Option<String>)
        ensures
            pattern is None <==> is_blank_text(query@),
            pattern matches Some(p) ==> p@ == "%"@ + lowercase(query@) + "%"@,
    {
        if is_blank(query) {
            return None;
        }
        let lower = to_lowercase(query);
        let mut pattern = String::new();
        pattern.append("%");
        pattern.append(lower.as_str());
        pattern.append("%");
        proof {
            assert(pattern@ =~= "%"@ + lowercase(query@) + "%"@);
        }
        Some(pattern)
    }
}

/// One search hit: the meeting, and the context of the match in one of its
/// transcripts.
#[derive(Debug, Clone)]
pub struct TranscriptSearchResult {
    pub id: String,
    pub title: String,
    pub match_context: String,
    pub timestamp: String,
}

/// A transcript row matched by the search: meeting id, meeting title,
/// transcript text, transcript timestamp.
pub type SearchRow = (String, String, String, String);

impl TranscriptsRepository {
    /// The search results for the rows the database matched, in the same order;
    /// none where a snippet cannot be cut out of one of the transcripts.
    pub fn search_results(rows: &Vec<SearchRow>, query: &str) -> (results: Option<Vec<TranscriptSearchResult>>)
        ensures
            results is Some <==> forall|i: int| 0 <= i < rows@.len() ==> window_fits(#[trigger] rows@[i].2@, query@),
            results matches Some(v) ==> v@.len() == rows@.len() && forall|i: int|
                0 <= i < rows@.len() ==> {
                    &&& (#[trigger] v@[i]).id == rows@[i].0
                    &&& v@[i].title == rows@[i].1
                    &&& v@[i].match_context@ == match_context(rows@[i].2@, query@)
                    &&& v@[i].timestamp == rows@[i].3
                },
            is_ascii_chars(query@) && (forall|i: int| 0 <= i < rows@.len() ==> is_ascii_chars(#[trigger] rows@[i].2@))
                ==> (results matches Some(v) && forall|i: int|
                0 <= i < rows@.len() ==> (#[trigger] v@[i]).match_context@ == ascii_match_context(rows@[i].2@, query@)),
    {
        let n = rows.len();
        let mut results: Vec<TranscriptSearchResult> = Vec::new();
        let mut i: usize = 0;
        while i < n
            invariant
                n == rows@.len(),
                i <= n,
                results@.len() == i,
                forall|k: int| 0 <= k < i ==> window_fits(#[trigger] rows@[k].2@, query@),
                forall|k: int|
                    0 <= k < i ==> {
                        &&& (#[trigger] results@[k]).id == rows@[k].0
                        &&& results@[k].title == rows@[k].1
                        &&& results@[k].match_context@ == match_context(rows@[k].2@, query@)
                        &&& results@[k].timestamp == rows@[k].3
                    },
                forall|k: int| 0 <= k < i && is_ascii_chars(query@) && is_ascii_chars(rows@[k].2@) ==> (#[trigger] results@[k]).match_context@
                    == ascii_match_context(rows@[k].2@, query@),
            decreases n - i,
        {
            let row = &rows[i];
            match Self::checked_match_context(row.2.as_str(), query) {
                Some(match_context) => {
                    results.push(
                        TranscriptSearchResult {
                            id: row.0.clone(),
                            title: row.1.clone(),
                            match_context,
                            timestamp: row.3.clone(),
                        },
                    );
                },
                None => {
                    return None;
                },
            }
            i = i + 1;
        }
        Some(results)
    }
}

} // verus!
