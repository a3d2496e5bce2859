use vstd::prelude::*;
use vstd::string::{StringExecFns, StringSliceAdditionalSpecFns};
use vstd::utf8::{
    encode_utf8, encode_utf8_valid_utf8, is_char_boundary, is_char_boundary_iff_not_is_continuation_byte,
    is_char_boundary_start_end_of_seq,
};
use crate::error::ResolveError;
use crate::pattern::{captures_of, Matcher, RawCapture};
use crate::text::{spans_placed, Span};

verus! {

/// One placeholder occurrence in a document.
#[derive(Clone, Debug)]
pub struct Occurrence {
    /// The bytes that the occurrence covers.
    pub span: Span,
    /// The referenced path, relative to the including file's directory.
    pub path: String,
    /// The number of spaces that prefix every line of the nested content but the first.
    pub indentation: usize,
}

pub open spec fn is_digit(b: u8) -> bool {
    0x30u8 <= b <= 0x39u8
}

pub open spec fn all_digits(s: Seq<u8>) -> bool {
    forall|i: int| 0 <= i < s.len() ==> is_digit(#[trigger] s[i])
}

/// The decimal value of a run of digits.
pub open spec fn digits_value(s: Seq<u8>) -> nat
    decreases s.len(),
{
    if s.len() == 0 {
        0
    } else {
        digits_value(s.drop_last()) * 10 + (s.last() - 0x30u8) as nat
    }
}

/// `s` without a leading plus sign.
pub open spec fn unsigned_part(s: Seq<u8>) -> Seq<u8> {
    if s.len() > 0 && s[0] == 0x2bu8 {
        s.drop_first()
    } else {
        s
    }
}

/// The count that `s` writes: optionally `+`, then at least one decimal digit, with a value
/// that fits a `usize`.
pub open spec fn count_of(s: Seq<u8>) -> Option<nat> {
    let d = unsigned_part(s);
    if d.len() > 0 && all_digits(d) && digits_value(d) <= usize::MAX {
        Some(digits_value(d))
    } else {
        None
    }
}

proof fn lemma_prefix_value_le(s: Seq<u8>, k: int)
    requires
        0 <= k <= s.len(),
        all_digits(s),
    ensures
        digits_value(s.subrange(0, k)) <= digits_value(s),
    decreases s.len(),
{
    if k < s.len() {
        let t = s.drop_last();
        assert(t.subrange(0, k) =~= s.subrange(0, k));
        lemma_prefix_value_le(t, k);
    } else {
        assert(s.subrange(0, k) =~= s);
    }
}

/// Reads the count written in `s[from..to]`.
pub fn parse_count(s: &[u8], from: usize, to: usize) -> (r: Option<usize>)
    requires
        from <= to <= s@.len(),
    ensures
        r matches Some(v) ==> count_of(s@.subrange(from as int, to as int)) == Some(v as nat),
        r is None ==> count_of(s@.subrange(from as int, to as int)) is None,
{
    let ghost w = s@.subrange(from as int, to as int);
    let start: usize = if from < to && s[from] == 0x2bu8 {
        from + 1
    } else {
        from
    };
    let ghost d = s@.subrange(start as int, to as int);
    assert(d =~= unsigned_part(w));
    if start == to {
        return None;
    }
    let mut value: usize = 0;
    let mut k: usize = start;
    while k < to
        invariant
            from <= start <= k <= to <= s@.len(),
            d == s@.subrange(start as int, to as int),
            d == unsigned_part(w),
            w == s@.subrange(from as int, to as int),
            all_digits(s@.subrange(start as int, k as int)),
            value as nat == digits_value(s@.subrange(start as int, k as int)),
        decreases to - k,
    {
        let b = s[k];
        if b < 0x30u8 || b > 0x39u8 {
            assert(d[k - start] == s@[k as int]);
            assert(!is_digit(d[k - start]));
            assert(!all_digits(d));
            return None;
        }
        let ghost prev = s@.subrange(start as int, k as int);
        let ghost next = s@.subrange(start as int, k + 1);
        assert(next.drop_last() =~= prev);
        assert(all_digits(next));
        assert(next.last() == b);
        assert(digits_value(next) == value as nat * 10 + (b - 0x30u8) as nat);
        let times = value.checked_mul(10);
        match times {
            None => {
                proof {
                    assert(digits_value(next) > usize::MAX);
                    if all_digits(d) {
                        assert(d.subrange(0, (k + 1 - start) as int) =~= next);
                        lemma_prefix_value_le(d, (k + 1 - start) as int);
                    }
                }
                return None;
            },
            Some(t) => {
                match t.checked_add((b - 0x30u8) as usize) {
                    None => {
                        proof {
                            assert(digits_value(next) > usize::MAX);
                            if all_digits(d) {
                                assert(d.subrange(0, (k + 1 - start) as int) =~= next);
                                lemma_prefix_value_le(d, (k + 1 - start) as int);
                            }
                        }
                        return None;
                    },
                    Some(v) => {
                        value = v;
                    },
                }
            },
        }
        k = k + 1;
    }
    Some(value)
}

/// The span lies in a document of `len` bytes.
pub open spec fn span_within(sp: Span, len: nat) -> bool {
    sp.start <= sp.end <= len
}

/// The capture can be read as an occurrence of the document with bytes `b`: it has a whole
/// match and a path group inside `b`, the path group starts and ends on character
/// boundaries, and an indentation group, where there is one, writes a count.
pub open spec fn capture_readable(b: Seq<u8>, c: RawCapture) -> bool {
    &&& c.whole matches Some(w) && span_within(w, b.len())
    &&& c.path matches Some(p) && span_within(p, b.len()) && is_char_boundary(b, p.start as int)
        && is_char_boundary(b, p.end as int)
    &&& c.indent matches Some(g) ==> span_within(g, b.len()) && count_of(
        b.subrange(g.start as int, g.end as int),
    ) is Some
}

/// The whole matches come in order and do not overlap.
pub open spec fn wholes_in_order(cs: Seq<RawCapture>) -> bool {
    forall|i: int, j: int|
        0 <= i < j < cs.len() ==> (#[trigger] cs[i]).whole->0.end <= (#[trigger] cs[j]).whole->0.start
}

/// The indentation that a readable capture asks for.
pub open spec fn indentation_of(b: Seq<u8>, c: RawCapture) -> nat {
    match c.indent {
        Some(g) => count_of(b.subrange(g.start as int, g.end as int))->0,
        None => 0,
    }
}

/// `o` is the occurrence that the capture `c` of the document with bytes `b` stands for.
pub open spec fn occurrence_from(b: Seq<u8>, c: RawCapture, o: Occurrence) -> bool {
    &&& o.span == c.whole->0
    &&& encode_utf8(o.path@) == b.subrange(
        c.path->0.start as int,
        c.path->0.end as int,
    )
    &&& o.indentation as nat == indentation_of(b, c)
}

pub open spec fn spans_of(os: Seq<Occurrence>) -> Seq<Span> {
    os.map_values(|o: Occurrence| o.span)
}

/// Reads the occurrences of `text` from the byte spans of its matches.
pub fn occurrences_from(text: &str, caps: &Vec<RawCapture>) -> (r: Result<
    Vec<Occurrence>,
    ResolveError,
>)
    ensures
        r is Ok <==> (forall|i: int|
            0 <= i < caps@.len() ==> capture_readable(text.spec_bytes(), #[trigger] caps@[i]))
            && wholes_in_order(caps@),
        r matches Ok(os) ==> {
            &&& os@.len() == caps@.len()
            &&& forall|i: int|
                0 <= i < os@.len() ==> occurrence_from(
                    text.spec_bytes(),
                    caps@[i],
                    #[trigger] os@[i],
                )
            &&& spans_placed(spans_of(os@), text.spec_bytes().len())
        },
        r matches Err(e) ==> e is MatchExtraction,
{
    let bytes = text.as_bytes();
    let ghost b = text.spec_bytes();
    let mut out: Vec<Occurrence> = Vec::new();
    let mut i: usize = 0;
    let mut last_end: usize = 0;
    while i < caps.len()
        invariant
            b == bytes@,
            b == text.spec_bytes(),
            i <= caps@.len(),
            out@.len() == i,
            forall|k: int| 0 <= k < i ==> capture_readable(b, #[trigger] caps@[k]),
            forall|k: int, j: int|
                0 <= k < j < i ==> (#[trigger] caps@[k]).whole->0.end <= (
                #[trigger] caps@[j]).whole->0.start,
            i > 0 ==> last_end == caps@[i - 1].whole->0.end,
            last_end <= b.len(),
            forall|k: int| 0 <= k < i ==> occurrence_from(b, caps@[k], #[trigger] out@[k]),
        decreases caps@.len() - i,
    {
        let c = caps[i];
        let w = match c.whole {
            Some(w) => w,
            None => {
                return Err(ResolveError::MatchExtraction { message: String::from_str("a match has no span") });
            },
        };
        if w.start > w.end || w.end > bytes.len() || (i > 0 && w.start < last_end) {
            proof {
                if i > 0 && w.start < last_end {
                    assert(caps@[i - 1].whole->0.end > caps@[i as int].whole->0.start);
                }
            }
            return Err(ResolveError::MatchExtraction { message: String::from_str("a match lies outside the document or out of order") });
        }
        let p = match c.path {
            Some(p) => p,
            None => {
                return Err(ResolveError::MatchExtraction { message: String::from_str("the path group did not take part in a match") });
            },
        };
        if p.start > p.end || p.end > bytes.len() || !text.is_char_boundary(p.start) || !text.is_char_boundary(p.end) {
            return Err(ResolveError::MatchExtraction { message: String::from_str("the path group does not lie on character boundaries") });
        }
        let indentation: usize = match c.indent {
            None => 0,
            Some(g) => {
                if g.start > g.end || g.end > bytes.len() {
                    return Err(ResolveError::MatchExtraction { message: String::from_str("the indentation group lies outside the document") });
                }
                match parse_count(bytes, g.start, g.end) {
                    Some(v) => v,
                    None => {
                        return Err(ResolveError::MatchExtraction { message: String::from_str("the indentation is not a count") });
                    },
                }
            },
        };
        let (_, rest) = text.split_at(p.start);
        proof {
            let rb = rest.spec_bytes();
            assert(rb =~= b.subrange(p.start as int, b.len() as int));
            encode_utf8_valid_utf8(text@);
            encode_utf8_valid_utf8(rest@);
            let idx = (p.end - p.start) as int;
            if p.end < b.len() {
                is_char_boundary_iff_not_is_continuation_byte(b, p.end as int);
                is_char_boundary_iff_not_is_continuation_byte(rb, idx);
                assert(rb[idx] == b[p.end as int]);
            } else {
                is_char_boundary_start_end_of_seq(rb);
            }
        }
        let (mid, _) = rest.split_at(p.end - p.start);
        let path = mid.to_owned();
        proof {
            assert(encode_utf8(path@) =~= b.subrange(p.start as int, p.end as int));
        }
        out.push(Occurrence { span: w, path, indentation });
        proof {
            assert(capture_readable(b, caps@[i as int]));
            assert forall|k: int, j: int|
                0 <= k < j < i + 1 implies (#[trigger] caps@[k]).whole->0.end <= (
                #[trigger] caps@[j]).whole->0.start by {
                if j == i && k < i - 1 {
                    assert(caps@[k].whole->0.end <= caps@[i - 1].whole->0.start);
                }
            }
        }
        last_end = w.end;
        i = i + 1;
    }
    proof {
        let sp = spans_of(out@);
        assert forall|k: int| 0 <= k < sp.len() implies #[trigger] sp[k] == caps@[k].whole->0 by {
            assert(occurrence_from(b, caps@[k], out@[k]));
        }
        assert forall|k: int| 0 <= k < sp.len() implies #[trigger] sp[k].end <= b.len() by {
            assert(capture_readable(b, caps@[k]));
        }
        assert forall|k: int| 0 <= k < sp.len() implies #[trigger] sp[k].start <= sp[k].end by {
            assert(capture_readable(b, caps@[k]));
        }
        assert forall|k: int, j: int| 0 <= k < j < sp.len() implies #[trigger] sp[k].end
            <= #[trigger] sp[j].start by {
            assert(caps@[k].whole->0.end <= caps@[j].whole->0.start);
        }
    }
    Ok(out)
}

/// The captures `cs` can all be read as occurrences of the document with bytes `b`, in order.
pub open spec fn captures_readable(b: Seq<u8>, cs: Seq<RawCapture>) -> bool {
    &&& forall|i: int| 0 <= i < cs.len() ==> capture_readable(b, #[trigger] cs[i])
    &&& wholes_in_order(cs)
}

/// The search of the matcher `source` in `text` found captures that can all be read.
pub open spec fn scan_ok(source: Seq<char>, text: Seq<char>) -> bool {
    captures_of(source, text) matches Some(cs) && captures_readable(encode_utf8(text), cs)
}

/// `os` are the occurrences read from the captures of the matcher `source` in `text`.
pub open spec fn scanned(source: Seq<char>, text: Seq<char>, os: Seq<Occurrence>) -> bool {
    let cs = captures_of(source, text)->0;
    &&& os.len() == cs.len()
    &&& forall|i: int|
        0 <= i < os.len() ==> occurrence_from(encode_utf8(text), cs[i], #[trigger] os[i])
}

/// Finds every placeholder occurrence in `text`, left to right.
pub fn scan(m: &Matcher, text: &str) -> (r: Result<Vec<Occurrence>, ResolveError>)
    ensures
        r is Ok <==> scan_ok(m@, text@),
        r matches Ok(os) ==> scanned(m@, text@, os@),
        r matches Ok(os) ==> spans_placed(spans_of(os@), text.spec_bytes().len()),
        r matches Err(e) ==> e is MatchExtraction,
{
    match m.captures(text) {
        Ok(caps) => occurrences_from(text, &caps),
        Err(message) => Err(ResolveError::MatchExtraction { message }),
    }
}

} // verus!
