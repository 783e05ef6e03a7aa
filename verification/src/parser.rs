//! The streaming header-boundary parser.
//!
//! A mail file is read in bounded chunks into a growing buffer.  Each time
//! more bytes arrive, [`process_mail_header`] resumes scanning from where it
//! stopped: it recognizes the header fields of interest (`From:`, `To:`,
//! `CC:`, `BCC:`), follows RFC-822 folding (a continuation line begins with a
//! space or tab), hands the parsed addresses of each recognized field through
//! the matcher to the collector, and stops at the blank line that ends the
//! header section.  A field whose end is not yet in the buffer is left
//! untouched and reported as [`HeaderParseResult::NeedMore`]; scanning the
//! same stream split at any chunk boundary therefore yields the same
//! addresses as scanning it in one piece (see [`lemma_scan_resume`]).

use vstd::prelude::*;
use vstd::slice::{slice_index_get, slice_subrange};

use crate::collect::{
    add_records, lemma_add_records_concat, spec_add_record, AddrCollection, AddrStats,
    AddressRecord,
};
use crate::matcher::Matcher;

verus! {

/// Outcome of one scan pass: the buffer holds no further complete line, or
/// the blank line ending the header section was reached.
pub enum HeaderParseResult {
    NeedMore,
    Done,
}

/// What to do with a complete candidate field that cannot be parsed.
///
/// `Skip` drops the field for good and scans on behind it.  `Retry` treats it
/// as possibly cut short by the buffer: the scan stops before it and takes
/// the field up again once more input has arrived (a field that stays
/// malformed then blocks the rest of that file's headers).  The choice is
/// deliberate configuration, not an accident of the implementation.
#[derive(Clone, Copy)]
pub enum MalformedFieldPolicy {
    Skip,
    Retry,
}

/// The newline byte that ends a physical header line.
pub const NL: u8 = 10;

/// A byte that, directly after a newline, marks a folded continuation line.
pub open spec fn is_fold_ws(b: u8) -> bool {
    b == 32 || b == 9
}

/// Index of the first occurrence of `b` at or after `from`.
pub open spec fn first_byte(buf: Seq<u8>, b: u8, from: int) -> Option<int>
    decreases buf.len() - from
        when 0 <= from <= buf.len()
{
    if from >= buf.len() {
        None
    } else if buf[from] == b {
        Some(from)
    } else {
        first_byte(buf, b, from + 1)
    }
}

proof fn lemma_first_byte_props(buf: Seq<u8>, b: u8, from: int)
    requires
        0 <= from <= buf.len(),
    ensures
        match first_byte(buf, b, from) {
            Some(i) => from <= i < buf.len() && buf[i] == b && forall|t: int|
                from <= t < i ==> #[trigger] buf[t] != b,
            None => forall|t: int| from <= t < buf.len() ==> #[trigger] buf[t] != b,
        },
    decreases buf.len() - from,
{
    if from < buf.len() && buf[from] != b {
        lemma_first_byte_props(buf, b, from + 1);
    }
}

proof fn lemma_first_byte_is(buf: Seq<u8>, b: u8, from: int, i: int)
    requires
        0 <= from <= i < buf.len(),
        buf[i] == b,
        forall|t: int| from <= t < i ==> #[trigger] buf[t] != b,
    ensures
        first_byte(buf, b, from) == Some(i),
    decreases i - from,
{
    if from < i {
        lemma_first_byte_is(buf, b, from + 1, i);
    }
}

proof fn lemma_first_byte_none(buf: Seq<u8>, b: u8, from: int)
    requires
        0 <= from <= buf.len(),
        forall|t: int| from <= t < buf.len() ==> #[trigger] buf[t] != b,
    ensures
        first_byte(buf, b, from) is None,
    decreases buf.len() - from,
{
    if from < buf.len() {
        lemma_first_byte_none(buf, b, from + 1);
    }
}

/// Relies on `memchr::memchr`: returns the index of the first occurrence of
/// `needle` in `hay`, or `None` when `needle` does not occur.
#[verifier::external_body]
fn find_byte(needle: u8, hay: &[u8]) -> (r: Option<usize>)
    ensures
        match r {
            Some(i) => first_byte(hay@, needle, 0) == Some(i as int),
            None => first_byte(hay@, needle, 0) is None,
        },
{
    memchr::memchr(needle, hay)
}

/// Finds `needle` in `buf` at or after `start`.
fn find_byte_from(buf: &[u8], needle: u8, start: usize) -> (r: Option<usize>)
    requires
        start <= buf@.len(),
    ensures
        match r {
            Some(i) => first_byte(buf@, needle, start as int) == Some(i as int) && start <= i
                < buf@.len(),
            None => first_byte(buf@, needle, start as int) is None,
        },
{
    let sub = slice_subrange(buf, start, buf.len());
    match find_byte(needle, sub) {
        Some(i) => {
            proof {
                lemma_first_byte_props(sub@, needle, 0);
                assert(buf@[start + i] == needle);
                assert forall|t: int| start <= t < start + i implies #[trigger] buf@[t]
                    != needle by {
                    assert(sub@[t - start] != needle);
                }
                lemma_first_byte_is(buf@, needle, start as int, start + i);
            }
            Some(start + i)
        },
        None => {
            proof {
                lemma_first_byte_props(sub@, needle, 0);
                assert forall|t: int| start <= t < buf@.len() implies #[trigger] buf@[t]
                    != needle by {
                    assert(sub@[t - start] != needle);
                }
                lemma_first_byte_none(buf@, needle, start as int);
            }
            None
        },
    }
}

fn byte_at(buf: &[u8], i: usize) -> (r: u8)
    requires
        i < buf@.len(),
    ensures
        r == buf@[i as int],
{
    *slice_index_get(buf, i)
}

/// One past the newline that ends the logical, fold-aware line beginning at
/// `start`; `None` while that end is not yet visible in the buffer.  A
/// newline followed by a space or tab continues the same logical line.
pub open spec fn spec_line_end(buf: Seq<u8>, start: int) -> Option<int>
    decreases buf.len() - start
        when 0 <= start <= buf.len()
{
    if start >= buf.len() {
        None
    } else if buf[start] == NL {
        if start + 1 >= buf.len() {
            None  // cannot yet tell whether the next line is a continuation
        } else if is_fold_ws(buf[start + 1]) {
            spec_line_end(buf, start + 1)
        } else {
            Some(start + 1)
        }
    } else {
        spec_line_end(buf, start + 1)
    }
}

proof fn lemma_line_end_bounds(buf: Seq<u8>, start: int)
    requires
        0 <= start <= buf.len(),
    ensures
        spec_line_end(buf, start) matches Some(e) ==> start < e < buf.len() && buf[e - 1] == NL
            && !is_fold_ws(buf[e]),
    decreases buf.len() - start,
{
    if start < buf.len() {
        lemma_line_end_bounds(buf, start + 1);
    }
}

/// Scanning may jump over bytes known not to be newlines.
proof fn lemma_line_end_skip(buf: Seq<u8>, start: int, t: int)
    requires
        0 <= start <= t <= buf.len(),
        forall|u: int| start <= u < t ==> #[trigger] buf[u] != NL,
    ensures
        spec_line_end(buf, start) == spec_line_end(buf, t),
    decreases t - start,
{
    if start < t {
        lemma_line_end_skip(buf, start + 1, t);
    }
}

/// A buffer without further newlines holds no complete line.
proof fn lemma_line_end_no_nl(buf: Seq<u8>, from: int)
    requires
        0 <= from <= buf.len(),
        forall|t: int| from <= t < buf.len() ==> #[trigger] buf[t] != NL,
    ensures
        spec_line_end(buf, from) is None,
    decreases buf.len() - from,
{
    if from < buf.len() {
        lemma_line_end_no_nl(buf, from + 1);
    }
}

/// Finds the end of the logical line beginning at `start`.
fn find_line_end(buf: &[u8], start: usize) -> (r: Option<usize>)
    requires
        start <= buf@.len(),
    ensures
        match r {
            Some(e) => spec_line_end(buf@, start as int) == Some(e as int) && start < e
                < buf@.len(),
            None => spec_line_end(buf@, start as int) is None,
        },
{
    let len = buf.len();
    let mut ns = start;
    loop
        invariant
            start <= ns <= len,
            len == buf@.len(),
            spec_line_end(buf@, start as int) == spec_line_end(buf@, ns as int),
        decreases len - ns,
    {
        match find_byte_from(buf, NL, ns) {
            None => {
                proof {
                    lemma_first_byte_props(buf@, NL, ns as int);
                    lemma_line_end_no_nl(buf@, ns as int);
                }
                return None;
            },
            Some(i) => {
                proof {
                    lemma_first_byte_props(buf@, NL, ns as int);
                    lemma_line_end_skip(buf@, ns as int, i as int);
                }
                let nb = i + 1;
                if nb >= len {
                    return None;
                }
                let c = byte_at(buf, nb);
                if c == 32 || c == 9 {
                    ns = nb;
                } else {
                    proof {
                        lemma_line_end_bounds(buf@, start as int);
                    }
                    return Some(nb);
                }
            },
        }
    }
}

/// The four header-field prefixes the scan recognizes, byte for byte.
pub open spec fn starts_from(buf: Seq<u8>, pos: int) -> bool {
    // "From:"
    &&& pos + 5 <= buf.len()
    &&& buf[pos] == 70
    &&& buf[pos + 1] == 114
    &&& buf[pos + 2] == 111
    &&& buf[pos + 3] == 109
    &&& buf[pos + 4] == 58
}

pub open spec fn starts_to(buf: Seq<u8>, pos: int) -> bool {
    // "To:"
    &&& pos + 3 <= buf.len()
    &&& buf[pos] == 84
    &&& buf[pos + 1] == 111
    &&& buf[pos + 2] == 58
}

pub open spec fn starts_cc(buf: Seq<u8>, pos: int) -> bool {
    // "CC:"
    &&& pos + 3 <= buf.len()
    &&& buf[pos] == 67
    &&& buf[pos + 1] == 67
    &&& buf[pos + 2] == 58
}

pub open spec fn starts_bcc(buf: Seq<u8>, pos: int) -> bool {
    // "BCC:"
    &&& pos + 4 <= buf.len()
    &&& buf[pos] == 66
    &&& buf[pos + 1] == 67
    &&& buf[pos + 2] == 67
    &&& buf[pos + 3] == 58
}

/// The line beginning at `pos` is a candidate header field.
pub open spec fn spec_interesting(buf: Seq<u8>, pos: int) -> bool {
    ||| starts_from(buf, pos)
    ||| starts_to(buf, pos)
    ||| starts_cc(buf, pos)
    ||| starts_bcc(buf, pos)
}

/// Recognizes the four field prefixes.
fn is_interesting(buf: &[u8], pos: usize) -> (r: bool)
    requires
        pos + 5 < buf@.len(),
        buf@.len() <= usize::MAX,
    ensures
        r == spec_interesting(buf@, pos as int),
{
    let b0 = byte_at(buf, pos);
    let b1 = byte_at(buf, pos + 1);
    let b2 = byte_at(buf, pos + 2);
    let b3 = byte_at(buf, pos + 3);
    let b4 = byte_at(buf, pos + 4);
    (b0 == 70 && b1 == 114 && b2 == 111 && b3 == 109 && b4 == 58)  // From:
    || (b0 == 84 && b1 == 111 && b2 == 58)  // To:
    || (b0 == 67 && b1 == 67 && b2 == 58)  // CC:
    || (b0 == 66 && b1 == 67 && b2 == 67 && b3 == 58)  // BCC:
}

/// One entry yielded by address-parsing a header field: a single mailbox, or
/// a named group whose member mailboxes are listed together.
pub enum ParsedAddr {
    Single(AddressRecord),
    Group(Vec<AddressRecord>),
}

/// The address entries that parsing one raw header field yields, or `None`
/// when the bytes are not a well-formed field.
///
/// This names the combined verdict of `mailparse::parse_header` and
/// `mailparse::addrparse_header`, which depends on the field's bytes alone.
pub uninterp spec fn header_addrs_of(line: Seq<u8>) -> Option<Seq<ParsedAddr>>;

/// Relies on `mailparse::parse_header` and `mailparse::addrparse_header`:
/// parses one raw header field and splits its decoded value into individual
/// address entries.  Both parsers are functions of the input bytes.
#[verifier::external_body]
fn parse_addrs(line: &[u8]) -> (r: Option<Vec<ParsedAddr>>)
    ensures
        match r {
            Some(v) => header_addrs_of(line@) == Some(v@),
            None => header_addrs_of(line@) is None,
        },
{
    let header = match mailparse::parse_header(line) { Ok(h) => h.0, Err(_) => return None };
    let list = match mailparse::addrparse_header(&header) { Ok(l) => l, Err(_) => return None };
    let single = |s: mailparse::SingleInfo| AddressRecord { addr: s.addr, display_name: s.display_name };
    Some(list.into_inner().into_iter().map(|a| match a {
        mailparse::MailAddr::Single(s) => ParsedAddr::Single(single(s)),
        mailparse::MailAddr::Group(g) => ParsedAddr::Group(g.addrs.into_iter().map(single).collect()),
    }).collect())
}

/// The record's address, or its display name, is of interest.
pub open spec fn record_matches<M: Matcher>(m: M, r: AddressRecord) -> bool {
    ||| m.spec_matches(r.addr@)
    ||| (r.display_name matches Some(n) && m.spec_matches(n@))
}

/// The single (non-group) entries that the matcher accepts, in order.
pub open spec fn singles_matched<M: Matcher>(m: M, addrs: Seq<ParsedAddr>) -> Seq<AddressRecord>
    decreases addrs.len(),
{
    if addrs.len() == 0 {
        Seq::empty()
    } else {
        let rest = singles_matched(m, addrs.drop_last());
        match addrs.last() {
            ParsedAddr::Single(r) => if record_matches(m, r) {
                rest.push(r)
            } else {
                rest
            },
            ParsedAddr::Group(_) => rest,
        }
    }
}

/// Parses one complete logical header field and returns the contained
/// addresses that the matcher accepts; `None` when the field is malformed.
pub fn parse_header_line<M: Matcher>(line: &[u8], matcher: &M) -> (r: Option<Vec<AddressRecord>>)
    ensures
        match r {
            Some(v) => header_addrs_of(line@) is Some && v@ == singles_matched(
                *matcher,
                header_addrs_of(line@).unwrap(),
            ),
            None => header_addrs_of(line@) is None,
        },
{
    match parse_addrs(line) {
        None => None,
        Some(mut entries) => {
            let ghost all = entries@;
            let mut out: Vec<AddressRecord> = Vec::new();
            let ghost mut k: int = 0;
            while entries.len() > 0
                invariant
                    0 <= k <= all.len(),
                    entries@ == all.skip(k),
                    out@ == singles_matched(*matcher, all.take(k)),
                decreases entries@.len(),
            {
                let ghost entries_pre = entries@;
                let entry = entries.remove(0);
                proof {
                    assert(entries_pre[0] == all[k]);
                    assert(entries@ =~= all.skip(k + 1));
                    assert(all.take(k + 1).drop_last() =~= all.take(k));
                    assert(all.take(k + 1).last() == all[k]);
                }
                match entry {
                    ParsedAddr::Single(rec) => {
                        let matched_addr = matcher.matches(rec.addr.as_str());
                        let matched_name = match &rec.display_name {
                            Some(nm) => matcher.matches(nm.as_str()),
                            None => false,
                        };
                        if matched_addr || matched_name {
                            out.push(rec);
                        }
                    },
                    ParsedAddr::Group(_) => {},
                }
                proof {
                    k = k + 1;
                }
            }
            proof {
                assert(all.take(k) =~= all);
            }
            Some(out)
        },
    }
}

/// One scan step's full outcome from position `pos`: the records the matcher
/// accepted, the position the scan stops at, and whether the blank line that
/// ends the header section was reached.
pub open spec fn spec_scan<M: Matcher>(m: M, policy: MalformedFieldPolicy, buf: Seq<u8>, pos: int) -> (
    Seq<AddressRecord>,
    int,
    bool,
)
    decreases buf.len() - pos, 1int,
        when 0 <= pos <= buf.len()
        via spec_scan_dec::<M>
{
    if pos >= buf.len() {
        (Seq::<AddressRecord>::empty(), pos, false)
    } else if buf[pos] == NL {
        (Seq::<AddressRecord>::empty(), pos, true)
    } else if buf.len() - pos < 6 {
        (Seq::<AddressRecord>::empty(), pos, false)
    } else if spec_interesting(buf, pos) {
        match spec_line_end(buf, pos) {
            None => (Seq::<AddressRecord>::empty(), pos, false),
            Some(e) => match header_addrs_of(buf.subrange(pos, e)) {
                Some(addrs) => {
                    let rest = spec_scan(m, policy, buf, e);
                    (singles_matched(m, addrs) + rest.0, rest.1, rest.2)
                },
                None => match policy {
                    MalformedFieldPolicy::Skip => spec_scan_skip(m, policy, buf, pos),
                    MalformedFieldPolicy::Retry => (Seq::<AddressRecord>::empty(), pos, false),
                },
            },
        }
    } else {
        spec_scan_skip(m, policy, buf, pos)
    }
}

/// Skips past the next physical newline and continues scanning there.
pub open spec fn spec_scan_skip<M: Matcher>(m: M, policy: MalformedFieldPolicy, buf: Seq<u8>, pos: int) -> (
    Seq<AddressRecord>,
    int,
    bool,
)
    decreases buf.len() - pos, 0int,
        when 0 <= pos <= buf.len()
        via spec_scan_skip_dec::<M>
{
    match first_byte(buf, NL, pos) {
        None => (Seq::<AddressRecord>::empty(), pos, false),
        Some(i) => spec_scan(m, policy, buf, i + 1),
    }
}

#[via_fn]
proof fn spec_scan_dec<M: Matcher>(m: M, policy: MalformedFieldPolicy, buf: Seq<u8>, pos: int) {
    lemma_line_end_bounds(buf, pos);
}

#[via_fn]
proof fn spec_scan_skip_dec<M: Matcher>(m: M, policy: MalformedFieldPolicy, buf: Seq<u8>, pos: int) {
    lemma_first_byte_props(buf, NL, pos);
}

/// The scan never moves backwards nor past the end of the buffer.
pub proof fn lemma_scan_pos_bounds<M: Matcher>(m: M, policy: MalformedFieldPolicy, buf: Seq<u8>, pos: int)
    requires
        0 <= pos <= buf.len(),
    ensures
        pos <= spec_scan(m, policy, buf, pos).1 <= buf.len(),
    decreases buf.len() - pos, 1int,
{
    if pos < buf.len() && buf[pos] != NL && buf.len() - pos >= 6 {
        if spec_interesting(buf, pos) {
            lemma_line_end_bounds(buf, pos);
            match spec_line_end(buf, pos) {
                Some(e) => {
                    match header_addrs_of(buf.subrange(pos, e)) {
                        Some(_) => {
                            lemma_scan_pos_bounds(m, policy, buf, e);
                        },
                        None => {
                            lemma_scan_skip_pos_bounds(m, policy, buf, pos);
                        },
                    }
                },
                None => {},
            }
        } else {
            lemma_scan_skip_pos_bounds(m, policy, buf, pos);
        }
    }
}

proof fn lemma_scan_skip_pos_bounds<M: Matcher>(m: M, policy: MalformedFieldPolicy, buf: Seq<u8>, pos: int)
    requires
        0 <= pos <= buf.len(),
    ensures
        pos <= spec_scan_skip(m, policy, buf, pos).1 <= buf.len(),
    decreases buf.len() - pos, 0int,
{
    lemma_first_byte_props(buf, NL, pos);
    match first_byte(buf, NL, pos) {
        Some(i) => {
            lemma_scan_pos_bounds(m, policy, buf, i + 1);
        },
        None => {},
    }
}

proof fn lemma_first_byte_extend(buf: Seq<u8>, ext: Seq<u8>, b: u8, from: int)
    requires
        0 <= from <= buf.len(),
        first_byte(buf, b, from) is Some,
    ensures
        first_byte(buf + ext, b, from) == first_byte(buf, b, from),
    decreases buf.len() - from,
{
    if from < buf.len() {
        assert((buf + ext)[from] == buf[from]);
        if buf[from] != b {
            lemma_first_byte_extend(buf, ext, b, from + 1);
        }
    }
}

proof fn lemma_line_end_extend(buf: Seq<u8>, ext: Seq<u8>, start: int)
    requires
        0 <= start <= buf.len(),
        spec_line_end(buf, start) is Some,
    ensures
        spec_line_end(buf + ext, start) == spec_line_end(buf, start),
    decreases buf.len() - start,
{
    assert((buf + ext)[start] == buf[start]);
    if buf[start] == NL {
        assert((buf + ext)[start + 1] == buf[start + 1]);
        if is_fold_ws(buf[start + 1]) {
            lemma_line_end_extend(buf, ext, start + 1);
        }
    } else {
        lemma_line_end_extend(buf, ext, start + 1);
    }
}

proof fn lemma_interesting_extend(buf: Seq<u8>, ext: Seq<u8>, pos: int)
    requires
        0 <= pos,
        pos + 5 <= buf.len(),
    ensures
        spec_interesting(buf + ext, pos) == spec_interesting(buf, pos),
{
    assert forall|i: int| 0 <= i < 5 implies (buf + ext)[pos + i] == #[trigger] buf[pos + i] by {}
    assert((buf + ext)[pos] == buf[pos]);
    assert((buf + ext)[pos + 1] == buf[pos + 1]);
    assert((buf + ext)[pos + 2] == buf[pos + 2]);
    assert((buf + ext)[pos + 3] == buf[pos + 3]);
    assert((buf + ext)[pos + 4] == buf[pos + 4]);
}

/// The scan is chunk-boundary agnostic.  When scanning `buf` stops with
/// "need more" at position `p`, then scanning any extension `buf + ext` from
/// the original position emits exactly the records of the first scan followed
/// by those of a scan of `buf + ext` resumed at `p`, and both stop at the
/// same place with the same verdict.  No record is lost, duplicated or
/// changed by feeding the same bytes in smaller pieces.
pub proof fn lemma_scan_resume<M: Matcher>(m: M, policy: MalformedFieldPolicy, buf: Seq<u8>, ext: Seq<u8>, pos: int)
    requires
        0 <= pos <= buf.len(),
        !spec_scan(m, policy, buf, pos).2,
    ensures
        ({
            let s = spec_scan(m, policy, buf, pos);
            let w = spec_scan(m, policy, buf + ext, pos);
            let t = spec_scan(m, policy, buf + ext, s.1);
            &&& w.0 == s.0 + t.0
            &&& w.1 == t.1
            &&& w.2 == t.2
        }),
    decreases buf.len() - pos, 1int,
{
    let s = spec_scan(m, policy, buf, pos);
    let big = buf + ext;
    lemma_scan_pos_bounds(m, policy, buf, pos);
    if pos >= buf.len() {
        assert(s.0 + spec_scan(m, policy, big, pos).0 =~= spec_scan(m, policy, big, pos).0);
    } else if buf[pos] == NL {
        // excluded: the scan would have reported the end of the headers
    } else if buf.len() - pos < 6 {
        assert(s.0 + spec_scan(m, policy, big, pos).0 =~= spec_scan(m, policy, big, pos).0);
    } else {
        assert(big[pos] == buf[pos]);
        lemma_interesting_extend(buf, ext, pos);
        if spec_interesting(buf, pos) {
            match spec_line_end(buf, pos) {
                None => {
                    assert(s.0 + spec_scan(m, policy, big, pos).0 =~= spec_scan(m, policy, big, pos).0);
                },
                Some(e) => {
                    lemma_line_end_bounds(buf, pos);
                    lemma_line_end_extend(buf, ext, pos);
                    assert(big.subrange(pos, e) =~= buf.subrange(pos, e));
                    match header_addrs_of(buf.subrange(pos, e)) {
                        Some(addrs) => {
                            let rs = spec_scan(m, policy, buf, e);
                            lemma_scan_resume(m, policy, buf, ext, e);
                            let t = spec_scan(m, policy, big, rs.1);
                            let aa = singles_matched(m, addrs);
                            assert(aa + (rs.0 + t.0) =~= (aa + rs.0) + t.0);
                        },
                        None => match policy {
                            MalformedFieldPolicy::Skip => {
                                lemma_scan_skip_resume(m, policy, buf, ext, pos);
                            },
                            MalformedFieldPolicy::Retry => {
                                assert(s.0 + spec_scan(m, policy, big, pos).0 =~= spec_scan(
                                    m,
                                    policy,
                                    big,
                                    pos,
                                ).0);
                            },
                        },
                    }
                },
            }
        } else {
            lemma_scan_skip_resume(m, policy, buf, ext, pos);
        }
    }
}

/// The skip step of [`lemma_scan_resume`]: the same statement for a scan that
/// is about to skip past the next physical newline.
proof fn lemma_scan_skip_resume<M: Matcher>(m: M, policy: MalformedFieldPolicy, buf: Seq<u8>, ext: Seq<u8>, pos: int)
    requires
        0 <= pos <= buf.len(),
        !spec_scan_skip(m, policy, buf, pos).2,
    ensures
        ({
            let s = spec_scan_skip(m, policy, buf, pos);
            let w = spec_scan_skip(m, policy, buf + ext, pos);
            let t = spec_scan(m, policy, buf + ext, s.1);
            &&& first_byte(buf, NL, pos) is Some ==> w.0 == s.0 + t.0 && w.1 == t.1 && w.2 == t.2
            &&& first_byte(buf, NL, pos) is None ==> s == (
                Seq::<AddressRecord>::empty(),
                pos,
                false,
            )
        }),
    decreases buf.len() - pos, 0int,
{
    lemma_first_byte_props(buf, NL, pos);
    match first_byte(buf, NL, pos) {
        None => {},
        Some(i) => {
            lemma_first_byte_extend(buf, ext, NL, pos);
            lemma_scan_resume(m, policy, buf, ext, i + 1);
        },
    }
}

/// Once a scan reaches the blank line that ends the headers, extending the
/// buffer changes nothing: the same records are emitted and the scan stops at
/// the same position, again reporting the end of the headers.
pub proof fn lemma_scan_done_stable<M: Matcher>(m: M, policy: MalformedFieldPolicy, buf: Seq<u8>, ext: Seq<u8>, pos: int)
    requires
        0 <= pos <= buf.len(),
        spec_scan(m, policy, buf, pos).2,
    ensures
        spec_scan(m, policy, buf + ext, pos) == spec_scan(m, policy, buf, pos),
    decreases buf.len() - pos, 1int,
{
    let big = buf + ext;
    if pos >= buf.len() {
        // excluded: the scan would have asked for more input
    } else {
        assert(big[pos] == buf[pos]);
        if buf[pos] == NL {
            assert(spec_scan(m, policy, big, pos) == spec_scan(m, policy, buf, pos));
        } else if buf.len() - pos < 6 {
            // excluded: the scan would have asked for more input
        } else {
            lemma_interesting_extend(buf, ext, pos);
            if spec_interesting(buf, pos) {
                match spec_line_end(buf, pos) {
                    None => {},
                    Some(e) => {
                        lemma_line_end_bounds(buf, pos);
                        lemma_line_end_extend(buf, ext, pos);
                        assert(big.subrange(pos, e) =~= buf.subrange(pos, e));
                        match header_addrs_of(buf.subrange(pos, e)) {
                            Some(addrs) => {
                                lemma_scan_done_stable(m, policy, buf, ext, e);
                            },
                            None => match policy {
                                MalformedFieldPolicy::Skip => {
                                    lemma_scan_skip_done_stable(m, policy, buf, ext, pos);
                                },
                                // a retried malformed field never reports `Done`
                                MalformedFieldPolicy::Retry => {},
                            },
                        }
                    },
                }
            } else {
                lemma_scan_skip_done_stable(m, policy, buf, ext, pos);
            }
        }
    }
}

proof fn lemma_scan_skip_done_stable<M: Matcher>(m: M, policy: MalformedFieldPolicy, buf: Seq<u8>, ext: Seq<u8>, pos: int)
    requires
        0 <= pos <= buf.len(),
        spec_scan_skip(m, policy, buf, pos).2,
    ensures
        spec_scan_skip(m, policy, buf + ext, pos) == spec_scan_skip(m, policy, buf, pos),
    decreases buf.len() - pos, 0int,
{
    lemma_first_byte_props(buf, NL, pos);
    match first_byte(buf, NL, pos) {
        None => {},
        Some(i) => {
            lemma_first_byte_extend(buf, ext, NL, pos);
            lemma_scan_done_stable(m, policy, buf, ext, i + 1);
        },
    }
}

/// The same agnosticism at the collector level: scanning a partial buffer
/// and then resuming on the extended buffer adds to a collection exactly what
/// one scan of the extended buffer adds.
pub proof fn lemma_resume_collects_the_same<M: Matcher>(
    m: M,
    policy: MalformedFieldPolicy,
    buf: Seq<u8>,
    ext: Seq<u8>,
    pos: int,
    c: Map<Seq<char>, AddrStats>,
)
    requires
        0 <= pos <= buf.len(),
        !spec_scan(m, policy, buf, pos).2,
    ensures
        ({
            let s = spec_scan(m, policy, buf, pos);
            let t = spec_scan(m, policy, buf + ext, s.1);
            add_records(add_records(c, s.0), t.0) == add_records(c, spec_scan(m, policy, buf + ext, pos).0)
        }),
{
    let s = spec_scan(m, policy, buf, pos);
    lemma_scan_resume(m, policy, buf, ext, pos);
    lemma_scan_pos_bounds(m, policy, buf, pos);
    lemma_add_records_concat(c, s.0, spec_scan(m, policy, buf + ext, s.1).0);
}

/// A header field that never terminates cannot make progress: while the tail
/// of the buffer holds no newline, the scan emits nothing, stays where it is
/// and keeps asking for more input.
pub proof fn lemma_unterminated_needs_more<M: Matcher>(m: M, policy: MalformedFieldPolicy, buf: Seq<u8>, pos: int)
    requires
        0 <= pos <= buf.len(),
        forall|t: int| pos <= t < buf.len() ==> #[trigger] buf[t] != NL,
    ensures
        spec_scan(m, policy, buf, pos) == (Seq::<AddressRecord>::empty(), pos, false),
{
    if pos < buf.len() {
        assert(buf[pos] != NL);
        if buf.len() - pos >= 6 {
            lemma_first_byte_none(buf, NL, pos);
            assert(first_byte(buf, NL, pos) is None);
            if spec_interesting(buf, pos) {
                lemma_line_end_no_nl(buf, pos);
                assert(spec_line_end(buf, pos) is None);
            } else {
                assert(spec_scan(m, policy, buf, pos) == spec_scan_skip(m, policy, buf, pos));
            }
        }
    }
}

/// Incrementally scans the buffer from `*pos`, feeding every address of every
/// complete recognized field through the matcher into the collector, until
/// either the end of the headers (`Done`) or the end of the currently
/// buffered data (`NeedMore`) is reached.
pub fn process_mail_header<M: Matcher>(
    buf: &[u8],
    pos: &mut usize,
    matcher: &M,
    policy: MalformedFieldPolicy,
    addr_collection: &mut AddrCollection,
) -> (r: HeaderParseResult)
    requires
        *old(pos) <= buf@.len(),
        old(addr_collection).wf(),
    ensures
        final(addr_collection).wf(),
        *final(pos) <= buf@.len(),
        ({
            let s = spec_scan(*matcher, policy, buf@, *old(pos) as int);
            &&& *final(pos) == s.1
            &&& (r is Done) == s.2
            &&& final(addr_collection)@ == add_records(old(addr_collection)@, s.0)
        }),
{
    let ghost pos0 = *pos as int;
    let ghost coll0 = addr_collection@;
    let ghost mut emitted: Seq<AddressRecord> = Seq::empty();
    let len = buf.len();
    proof {
        assert(emitted + spec_scan(*matcher, policy, buf@, pos0).0 =~= spec_scan(*matcher, policy, buf@, pos0).0);
    }
    loop
        invariant
            pos0 == *old(pos) as int,
            coll0 == old(addr_collection)@,
            *pos <= len,
            len == buf@.len(),
            addr_collection.wf(),
            addr_collection@ == add_records(coll0, emitted),
            spec_scan(*matcher, policy, buf@, pos0).0 == emitted + spec_scan(
                *matcher,
                policy,
                buf@,
                *pos as int,
            ).0,
            spec_scan(*matcher, policy, buf@, pos0).1 == spec_scan(*matcher, policy, buf@, *pos as int).1,
            spec_scan(*matcher, policy, buf@, pos0).2 == spec_scan(*matcher, policy, buf@, *pos as int).2,
        decreases len - *pos,
    {
        let ghost cur = *pos as int;
        let ghost s_cur = spec_scan(*matcher, policy, buf@, cur);
        if *pos >= len {
            proof {
                assert(s_cur.0 =~= Seq::<AddressRecord>::empty());
                assert(emitted + s_cur.0 =~= emitted);
            }
            return HeaderParseResult::NeedMore;
        }
        let b0 = byte_at(buf, *pos);
        if b0 == NL {
            proof {
                assert(s_cur.0 =~= Seq::<AddressRecord>::empty());
                assert(emitted + s_cur.0 =~= emitted);
            }
            return HeaderParseResult::Done;
        }
        if len - *pos < 6 {
            proof {
                assert(s_cur.0 =~= Seq::<AddressRecord>::empty());
                assert(emitted + s_cur.0 =~= emitted);
            }
            return HeaderParseResult::NeedMore;
        }
        if is_interesting(buf, *pos) {
            match find_line_end(buf, *pos) {
                None => {
                    proof {
                        assert(s_cur.0 =~= Seq::<AddressRecord>::empty());
                        assert(emitted + s_cur.0 =~= emitted);
                    }
                    return HeaderParseResult::NeedMore;
                },
                Some(e) => {
                    let line = slice_subrange(buf, *pos, e);
                    match parse_header_line(line, matcher) {
                        Some(mut recs) => {
                            let ghost addrs = header_addrs_of(line@).unwrap();
                            let ghost rest = spec_scan(*matcher, policy, buf@, e as int);
                            proof {
                                assert(line@ == buf@.subrange(cur, e as int));
                                assert(s_cur.0 == singles_matched(*matcher, addrs) + rest.0);
                                assert(s_cur.1 == rest.1 && s_cur.2 == rest.2);
                                assert(recs@ == singles_matched(*matcher, addrs));
                            }
                            let ghost recs0 = recs@;
                            let ghost emitted_pre = emitted;
                            let ghost mut k: int = 0;
                            proof {
                                assert(recs0.take(0) =~= Seq::<AddressRecord>::empty());
                                assert(emitted_pre + recs0.take(0) =~= emitted_pre);
                            }
                            while recs.len() > 0
                                invariant
                                    0 <= k <= recs0.len(),
                                    recs@ == recs0.skip(k),
                                    addr_collection.wf(),
                                    addr_collection@ == add_records(
                                        coll0,
                                        emitted_pre + recs0.take(k),
                                    ),
                                decreases recs@.len(),
                            {
                                let ghost recs_pre = recs@;
                                let ghost before = emitted_pre + recs0.take(k);
                                let rec = recs.remove(0);
                                proof {
                                    assert(recs_pre[0] == recs0[k]);
                                    assert(recs@ =~= recs0.skip(k + 1));
                                }
                                addr_collection.add(rec);
                                proof {
                                    let after = emitted_pre + recs0.take(k + 1);
                                    assert(after.drop_last() =~= before);
                                    assert(after.last() == recs0[k]);
                                    assert(add_records(coll0, after) == spec_add_record(
                                        add_records(coll0, before),
                                        recs0[k],
                                    ));
                                    k = k + 1;
                                }
                            }
                            proof {
                                assert(recs0.take(k) =~= recs0);
                                emitted = emitted_pre + recs0;
                                assert(emitted_pre + (recs0 + rest.0) =~= (emitted_pre + recs0)
                                    + rest.0);
                                assert(spec_scan(*matcher, policy, buf@, pos0).0 == emitted + rest.0);
                            }
                            *pos = e;
                        },
                        None => {
                            proof {
                                assert(line@ == buf@.subrange(cur, e as int));
                            }
                            match policy {
                                MalformedFieldPolicy::Skip => {
                                    // drop the field: skip past the next newline and go on
                                    proof {
                                        assert(s_cur == spec_scan_skip(*matcher, policy, buf@, cur));
                                    }
                                    match find_byte_from(buf, NL, *pos) {
                                        None => {
                                            proof {
                                                assert(s_cur.0 =~= Seq::<AddressRecord>::empty());
                                                assert(emitted + s_cur.0 =~= emitted);
                                            }
                                            return HeaderParseResult::NeedMore;
                                        },
                                        Some(i) => {
                                            proof {
                                                assert(s_cur == spec_scan(
                                                    *matcher,
                                                    policy,
                                                    buf@,
                                                    i + 1,
                                                ));
                                            }
                                            *pos = i + 1;
                                        },
                                    }
                                },
                                MalformedFieldPolicy::Retry => {
                                    // leave the field for the next round of input
                                    proof {
                                        assert(s_cur.0 =~= Seq::<AddressRecord>::empty());
                                        assert(emitted + s_cur.0 =~= emitted);
                                    }
                                    return HeaderParseResult::NeedMore;
                                },
                            }
                        },
                    }
                },
            }
        } else {
            proof {
                assert(s_cur == spec_scan_skip(*matcher, policy, buf@, cur));
            }
            match find_byte_from(buf, NL, *pos) {
                None => {
                    proof {
                        assert(s_cur.0 =~= Seq::<AddressRecord>::empty());
                        assert(emitted + s_cur.0 =~= emitted);
                    }
                    return HeaderParseResult::NeedMore;
                },
                Some(i) => {
                    proof {
                        assert(s_cur == spec_scan(*matcher, policy, buf@, i + 1));
                    }
                    *pos = i + 1;
                },
            }
        }
    }
}

} // verus!
