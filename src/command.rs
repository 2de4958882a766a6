//! Reading replies: the message header, the fields, the bins, a record,
//! a failed user-defined function, and the records of a stream.

use vstd::prelude::*;
use vstd::slice::slice_subrange;
use vstd::utf8::{decode_utf8, valid_utf8};

use crate::errors::{result_code_byte, Error, ErrorKind, ResultCode, Result};
use crate::key::Key;
use crate::particle::{particle_value, PreParsedValue};
use crate::value::{Value, ValueView};
use crate::wire::{be_uint, lemma_be_uint_bound, lemma_pow256_values, read_be_uint, string_from_utf8};

verus! {

/// The size of the header that follows the 8-byte size word.
pub const MSG_REMAINING_HEADER_SIZE: usize = 22;
/// The size word and the header together.
pub const MSG_TOTAL_HEADER_SIZE: usize = 30;
/// The `info3` bit that marks the last message of a stream.
pub const INFO3_LAST: u8 = 1;
/// The `info3` bit that marks the end of a partition in a stream.
pub const INFO3_PARTITION_DONE: u8 = 4;
/// Field types of the fields that precede the bins.
pub const FIELD_NAMESPACE: u8 = 0;
pub const FIELD_TABLE: u8 = 1;
pub const FIELD_KEY: u8 = 2;
pub const FIELD_DIGEST_RIPE: u8 = 4;
/// The result codes that reading a record treats apart.
pub const RC_OK: u8 = 0;
pub const RC_KEY_NOT_FOUND: u8 = 2;
pub const RC_UDF_BAD_RESPONSE: u8 = 100;

/// The header of a reply, as far as the client reads it.
#[derive(Debug, Clone, Copy, PartialEq, Eq, Structural)]
pub struct MessageHeader {
    pub info3: u8,
    pub result_code: u8,
    pub generation: u32,
    pub expiration: u32,
    pub field_count: u16,
    pub op_count: u16,
}

/// The header at `p`, read from its 22 bytes.
pub open spec fn header_at(d: Seq<u8>, p: int) -> MessageHeader {
    MessageHeader {
        info3: d[p + 3],
        result_code: d[p + 5],
        generation: be_uint(d.subrange(p + 6, p + 10)) as u32,
        expiration: be_uint(d.subrange(p + 10, p + 14)) as u32,
        field_count: be_uint(d.subrange(p + 18, p + 20)) as u16,
        op_count: be_uint(d.subrange(p + 20, p + 22)) as u16,
    }
}

/// Reads the header at `p`.
pub fn parse_header(d: &[u8], p: usize) -> (r: Result<MessageHeader>)
    ensures
        p + MSG_REMAINING_HEADER_SIZE <= d@.len() <==> r is Ok,
        r matches Ok(h) ==> h == header_at(d@, p as int),
        r matches Err(e) ==> e.0 is BadResponse,
{
    if p > d.len() || d.len() - p < MSG_REMAINING_HEADER_SIZE {
        return Err(Error::from_kind(ErrorKind::BadResponse("Truncated message header".to_owned())));
    }
    proof {
        lemma_pow256_values();
        lemma_be_uint_bound(d@.subrange(p + 6, p + 10));
        lemma_be_uint_bound(d@.subrange(p + 10, p + 14));
        lemma_be_uint_bound(d@.subrange(p + 18, p + 20));
        lemma_be_uint_bound(d@.subrange(p + 20, p + 22));
    }
    Ok(MessageHeader {
        info3: d[p + 3],
        result_code: d[p + 5],
        generation: read_be_uint(d, p + 6, 4) as u32,
        expiration: read_be_uint(d, p + 10, 4) as u32,
        field_count: read_be_uint(d, p + 18, 2) as u16,
        op_count: read_be_uint(d, p + 20, 2) as u16,
    })
}

/// Reads the payload length from the size word at `p`: its low 48 bits.
pub fn read_msg_size(d: &[u8], p: usize) -> (r: Result<u64>)
    ensures
        p + 8 <= d@.len() <==> r is Ok,
        r matches Ok(n) ==> n as nat == be_uint(d@.subrange(p + 2, p + 8)),
{
    if p > d.len() || d.len() - p < 8 {
        return Err(Error::from_kind(ErrorKind::BadResponse("Truncated size word".to_owned())));
    }
    Ok(read_be_uint(d, p + 2, 6))
}

/// A field: its type and payload, and where the next one begins.
pub open spec fn field_at(d: Seq<u8>, p: int) -> Option<(u8, Seq<u8>, int)> {
    if 0 <= p && p + 4 <= d.len() {
        let len = be_uint(d.subrange(p, p + 4)) as int;
        if len >= 1 && p + 4 + len <= d.len() {
            Some((d[p + 4], d.subrange(p + 5, p + 4 + len), p + 4 + len))
        } else {
            None
        }
    } else {
        None
    }
}

/// Where `n` fields from `p` end.
pub open spec fn fields_end(d: Seq<u8>, p: int, n: nat) -> Option<int>
    decreases n,
{
    if n == 0 {
        Some(p)
    } else {
        match field_at(d, p) {
            Some((_, _, e)) => fields_end(d, e, (n - 1) as nat),
            None => None,
        }
    }
}

/// Reads the field at `p`: its type, where its payload starts, and where it ends.
fn read_field(d: &[u8], p: usize) -> (r: Result<(u8, usize, usize)>)
    ensures
        match field_at(d@, p as int) {
            Some((t, _, e)) => r matches Ok((rt, s, re)) && rt == t && s == p + 5 && re == e,
            None => r matches Err(e) && e.0 is BadResponse,
        },
{
    if p > d.len() || d.len() - p < 4 {
        return Err(Error::from_kind(ErrorKind::BadResponse("Truncated field".to_owned())));
    }
    let len = read_be_uint(d, p, 4);
    proof {
        lemma_pow256_values();
        lemma_be_uint_bound(d@.subrange(p as int, p + 4));
    }
    if len < 1 || len > (d.len() - p - 4) as u64 {
        return Err(Error::from_kind(ErrorKind::BadResponse("Bad field length".to_owned())));
    }
    Ok((d[p + 4], p + 5, p + 4 + len as usize))
}

/// Skips `n` fields from `p`.
pub fn skip_fields(d: &[u8], p: usize, n: u16) -> (r: Result<usize>)
    ensures
        match fields_end(d@, p as int, n as nat) {
            Some(e) => r matches Ok(q) && q == e,
            None => r is Err,
        },
{
    let mut q = p;
    let mut i: u16 = 0;
    while i < n
        invariant
            i <= n,
            fields_end(d@, p as int, n as nat) == fields_end(d@, q as int, (n - i) as nat),
        decreases n - i,
    {
        let (_, _, e) = read_field(d, q)?;
        q = e;
        i = i + 1;
    }
    Ok(q)
}

/// A bin as the wire holds it: particle type, name bytes, particle bytes.
pub type BinView = (u8, Seq<u8>, Seq<u8>);

/// The bin at `p` and where the next one begins.
pub open spec fn bin_at(d: Seq<u8>, p: int) -> Option<(BinView, int)> {
    if 0 <= p && p + 8 <= d.len() {
        let size = be_uint(d.subrange(p, p + 4)) as int;
        let name_len = d[p + 7] as int;
        if name_len <= 15 && size >= 4 + name_len && p + 4 + size <= d.len() {
            Some(((d[p + 5], d.subrange(p + 8, p + 8 + name_len), d.subrange(p + 8 + name_len, p + 4 + size)), p + 4 + size))
        } else {
            None
        }
    } else {
        None
    }
}

/// `n` bins one after another from `p`.
pub open spec fn bins_at(d: Seq<u8>, p: int, n: nat) -> Option<(Seq<BinView>, int)>
    decreases n,
{
    if n == 0 {
        Some((Seq::empty(), p))
    } else {
        match bin_at(d, p) {
            Some((b, e)) => match bins_at(d, e, (n - 1) as nat) {
                Some((bs, q)) => Some((seq![b] + bs, q)),
                None => None,
            },
            None => None,
        }
    }
}

/// What a pre-parsed bin holds.
pub open spec fn bin_view(v: PreParsedValue) -> BinView {
    (v.particle_type, v.name@.subrange(0, v.name_len as int), v.particle@)
}

/// The bins of a sequence of pre-parsed bins.
pub open spec fn bin_views(s: Seq<PreParsedValue>) -> Seq<BinView> {
    Seq::new(s.len(), |i: int| bin_view(s[i]))
}

/// Reads the bin at `p`.
pub fn pre_parse_bin(d: &[u8], p: usize) -> (r: Result<(PreParsedValue, usize)>)
    ensures
        match bin_at(d@, p as int) {
            Some((b, e)) => r matches Ok((v, q)) && bin_view(v) == b && q == e && v.name_len <= 15,
            None => r matches Err(e) && e.0 is BadResponse,
        },
{
    if p > d.len() || d.len() - p < 8 {
        return Err(Error::from_kind(ErrorKind::BadResponse("Truncated bin".to_owned())));
    }
    let size = read_be_uint(d, p, 4);
    proof {
        lemma_pow256_values();
        lemma_be_uint_bound(d@.subrange(p as int, p + 4));
    }
    let particle_type = d[p + 5];
    let name_len = d[p + 7];
    if name_len > 15 || size < 4 + name_len as u64 || size > (d.len() - p - 4) as u64 {
        return Err(Error::from_kind(ErrorKind::BadResponse("Bad bin header".to_owned())));
    }
    let nl = name_len as usize;
    let end = p + 4 + size as usize;
    let mut name = [0u8; 15];
    let mut i: usize = 0;
    let dlen = d.len();
    while i < nl
        invariant
            dlen == d@.len(),
            nl <= 15,
            p + 8 + nl <= d@.len(),
            i <= nl,
            forall|j: int| 0 <= j < i ==> name@[j] == d@[p + 8 + j],
        decreases nl - i,
    {
        name[i] = d[p + 8 + i];
        i = i + 1;
    }
    let particle = vstd::slice::slice_to_vec(slice_subrange(d, p + 8 + nl, end));
    let v = PreParsedValue { particle_type, name_len, name, particle };
    assert(v.name@.subrange(0, nl as int) =~= d@.subrange(p + 8, p + 8 + nl));
    Ok((v, end))
}

/// Reads `n` bins from `p`.
pub fn pre_parse_bins(d: &[u8], p: usize, n: u16) -> (r: Result<(Vec<PreParsedValue>, usize)>)
    ensures
        match bins_at(d@, p as int, n as nat) {
            Some((bs, e)) => r matches Ok((vs, q)) && bin_views(vs@) == bs && q == e && forall|i: int|
                0 <= i < vs@.len() ==> (#[trigger] vs@[i]).name_len <= 15,
            None => r matches Err(e) && e.0 is BadResponse,
        },
{
    let mut vs: Vec<PreParsedValue> = Vec::new();
    let mut q = p;
    let mut i: u16 = 0;
    while i < n
        invariant
            i <= n,
            forall|j: int| 0 <= j < vs@.len() ==> (#[trigger] vs@[j]).name_len <= 15,
            bins_at(d@, p as int, n as nat) == match bins_at(d@, q as int, (n - i) as nat) {
                Some((bs, e)) => Some((bin_views(vs@) + bs, e)),
                None => None,
            },
        decreases n - i,
    {
        let (v, e) = pre_parse_bin(d, q)?;
        let ghost before = bin_views(vs@);
        let ghost bv = bin_view(v);
        vs.push(v);
        assert(bin_views(vs@) =~= before.push(bv));
        proof {
            match bins_at(d@, e as int, (n - i - 1) as nat) {
                Some((bs, f)) => {
                    assert(before + (seq![bv] + bs) =~= before.push(bv) + bs);
                },
                None => {},
            }
        }
        q = e;
        i = i + 1;
    }
    assert(bin_views(vs@) + Seq::<BinView>::empty() =~= bin_views(vs@));
    Ok((vs, q))
}

/// The name and value of each bin, where every name is UTF-8 and every
/// particle readable.
pub open spec fn record_bins(bs: Seq<BinView>) -> Option<Seq<(Seq<char>, ValueView)>>
    decreases bs.len(),
{
    if bs.len() == 0 {
        Some(Seq::empty())
    } else {
        let b = bs.last();
        match (record_bins(bs.drop_last()), particle_value(b.0, b.2)) {
            (Some(r), Some(v)) => if valid_utf8(b.1) {
                Some(r.push((decode_utf8(b.1), v)))
            } else {
                None
            },
            _ => None,
        }
    }
}

/// A record read from the server: key (when the reply carries one), bins,
/// generation and expiration.
#[derive(Debug)]
pub struct OperateRecord {
    pub key: Option<Key>,
    pub bins: Vec<(String, Value)>,
    pub generation: u32,
    /// When the record expires, in seconds from 2010-01-01 00:00:00 UTC.
    pub expiration: u32,
}

/// The names and values of a record's bins.
pub open spec fn bins_view(bins: Seq<(String, Value)>) -> Seq<(Seq<char>, ValueView)> {
    Seq::new(bins.len(), |i: int| (bins[i].0@, bins[i].1@))
}

impl OperateRecord {
    /// A record.
    pub fn new(key: Option<Key>, bins: Vec<(String, Value)>, generation: u32, expiration: u32) -> (r: OperateRecord)
        ensures
            r.key == key,
            r.bins == bins,
            r.generation == generation,
            r.expiration == expiration,
    {
        OperateRecord { key, bins, generation, expiration }
    }
}

proof fn lemma_record_bins_prefix(bs: Seq<BinView>, k: int)
    requires
        0 <= k <= bs.len(),
        record_bins(bs.subrange(0, k)) is None,
    ensures
        record_bins(bs) is None,
    decreases bs.len() - k,
{
    if k < bs.len() {
        let next = bs.subrange(0, k + 1);
        assert(next.drop_last() =~= bs.subrange(0, k));
        lemma_record_bins_prefix(bs, k + 1);
    } else {
        assert(bs.subrange(0, k) =~= bs);
    }
}

/// Turns pre-parsed bins into named values.
pub fn bins_to_values(vs: &Vec<PreParsedValue>) -> (r: Result<Vec<(String, Value)>>)
    requires
        forall|i: int| 0 <= i < vs@.len() ==> (#[trigger] vs@[i]).name_len <= 15,
    ensures
        match record_bins(bin_views(vs@)) {
            Some(bs) => r matches Ok(out) && bins_view(out@) == bs,
            None => r is Err,
        },
{
    let mut out: Vec<(String, Value)> = Vec::new();
    let mut i: usize = 0;
    while i < vs.len()
        invariant
            i <= vs@.len(),
            forall|j: int| 0 <= j < vs@.len() ==> (#[trigger] vs@[j]).name_len <= 15,
            record_bins(bin_views(vs@.subrange(0, i as int))) == Some(bins_view(out@)),
        decreases vs@.len() - i,
    {
        let ghost pre = bin_views(vs@.subrange(0, i as int));
        assert(bin_views(vs@.subrange(0, i + 1)).drop_last() =~= pre);
        assert(bin_views(vs@.subrange(0, i + 1)).last() == bin_view(vs@[i as int]));
        let name = match vs[i].name() {
            Ok(n) => n,
            Err(e) => {
                proof {
                    lemma_record_bins_prefix(bin_views(vs@), i + 1);
                    assert(bin_views(vs@).subrange(0, i + 1) =~= bin_views(vs@.subrange(0, i + 1)));
                }
                return Err(e);
            },
        };
        let value = match vs[i].to_value() {
            Ok(v) => v,
            Err(e) => {
                proof {
                    lemma_record_bins_prefix(bin_views(vs@), i + 1);
                    assert(bin_views(vs@).subrange(0, i + 1) =~= bin_views(vs@.subrange(0, i + 1)));
                }
                return Err(e);
            },
        };
        let ghost before = bins_view(out@);
        out.push((name, value));
        assert(bins_view(out@) =~= before.push((name@, value@)));
        i = i + 1;
    }
    assert(vs@.subrange(0, i as int) =~= vs@);
    Ok(out)
}

/// The name of the bin that carries the reason of a failed user-defined
/// function: `FAILURE`.
pub open spec fn failure_name() -> Seq<u8> {
    seq![70u8, 65u8, 73u8, 76u8, 85u8, 82u8, 69u8]
}

/// The position of the first bin from `i` on whose name is `name`.
pub open spec fn first_named(bs: Seq<BinView>, name: Seq<u8>, i: int) -> Option<int>
    decreases bs.len() - i,
{
    if i < 0 || i >= bs.len() {
        None
    } else if bs[i].1 == name {
        Some(i)
    } else {
        first_named(bs, name, i + 1)
    }
}

/// The reason that a failed user-defined function gives in its bins:
/// the text of the `FAILURE` bin, or a default where there is none;
/// `None` where that bin holds something other than text.
pub open spec fn udf_reason(bs: Seq<BinView>) -> Option<Seq<char>> {
    match first_named(bs, failure_name(), 0) {
        None => Some("UDF Error"@),
        Some(i) => {
            let b = bs[i];
            if b.0 == 0 {
                Some("UDF Error"@)
            } else if b.0 == 3 && valid_utf8(b.2) {
                Some(decode_utf8(b.2))
            } else {
                None
            }
        },
    }
}

/// Reads the reason of a failed user-defined function from the
/// `field_count` fields and `op_count` bins at `p`.
pub fn parse_udf_error(d: &[u8], p: usize, op_count: u16, field_count: u16) -> (r: Result<String>)
    ensures
        match fields_end(d@, p as int, field_count as nat) {
            None => r is Err,
            Some(e) => match bins_at(d@, e, op_count as nat) {
                None => r is Err,
                Some((bs, _)) => match udf_reason(bs) {
                    Some(s) => r matches Ok(m) && m@ == s,
                    None => r is Err,
                },
            },
        },
{
    let e = skip_fields(d, p, field_count)?;
    let (vs, _) = pre_parse_bins(d, e, op_count)?;
    let ghost bs = bin_views(vs@);
    assert(fields_end(d@, p as int, field_count as nat) == Some(e as int));
    assert(bins_at(d@, e as int, op_count as nat) matches Some((b2, _)) && b2 == bs);
    let failure: [u8; 7] = [70, 65, 73, 76, 85, 82, 69];
    assert(failure@ =~= failure_name());
    let mut i: usize = 0;
    while i < vs.len()
        invariant
            bs == bin_views(vs@),
            fields_end(d@, p as int, field_count as nat) == Some(e as int),
            bins_at(d@, e as int, op_count as nat) matches Some((b2, _)) && b2 == bs,
            i <= vs@.len(),
            forall|j: int| 0 <= j < vs@.len() ==> (#[trigger] vs@[j]).name_len <= 15,
            first_named(bs, failure_name(), 0) == first_named(bs, failure_name(), i as int),
            failure@ == failure_name(),
        decreases vs@.len() - i,
    {
        let v = &vs[i];
        assert(bs[i as int] == bin_view(*v));
        if crate::wire::bytes_eq(slice_subrange(v.name.as_slice(), 0, v.name_len as usize), failure.as_slice()) {
            assert(first_named(bs, failure_name(), i as int) == Some(i as int));
            if v.particle_type == 0 {
                let m = "UDF Error".to_owned();
                assert(m@ == "UDF Error"@);
                assert(bs[i as int].0 == 0);
                assert(udf_reason(bs) == Some(m@));
                return Ok(m);
            }
            if v.particle_type == 3 {
                return match string_from_utf8(v.particle.as_slice()) {
                    Some(s) => Ok(s),
                    None => Err(Error::from_kind(ErrorKind::InvalidUtf8)),
                };
            }
            return Err(Error::from_kind(ErrorKind::Derive("FAILURE bin does not hold text".to_owned())));
        }
        i = i + 1;
    }
    let m = "UDF Error".to_owned();
    assert(m@ == "UDF Error"@);
    Ok(m)
}

/// What a reply to a single-record command says.
pub enum ReplyView {
    /// The record: generation, expiration, and each bin's name and value.
    Record(u32, u32, Seq<(Seq<char>, ValueView)>),
    /// A user-defined function failed, for this reason.
    Udf(Seq<char>),
    /// The server answered with this result code.
    Server(u8),
    /// The reply cannot be read.
    Malformed,
}

/// What the reply `d` (from its size word on) says; `bins_none` where the
/// command asked for no bins.
pub open spec fn read_reply(d: Seq<u8>, bins_none: bool) -> ReplyView {
    if d.len() < MSG_TOTAL_HEADER_SIZE {
        ReplyView::Malformed
    } else {
        let h = header_at(d, 8);
        if h.result_code == RC_OK && bins_none {
            ReplyView::Record(h.generation, h.expiration, Seq::empty())
        } else if h.result_code == RC_OK || h.result_code == RC_UDF_BAD_RESPONSE {
            match fields_end(d, MSG_TOTAL_HEADER_SIZE as int, h.field_count as nat) {
                None => ReplyView::Malformed,
                Some(e) => match bins_at(d, e, h.op_count as nat) {
                    None => ReplyView::Malformed,
                    Some((bs, _)) => if h.result_code == RC_OK {
                        match record_bins(bs) {
                            Some(r) => ReplyView::Record(h.generation, h.expiration, r),
                            None => ReplyView::Malformed,
                        }
                    } else {
                        match udf_reason(bs) {
                            Some(s) => ReplyView::Udf(s),
                            None => ReplyView::Malformed,
                        }
                    },
                },
            }
        } else {
            ReplyView::Server(h.result_code)
        }
    }
}

/// Reads the fields and `op_count` bins at `p` into a record without key.
pub fn parse_record(d: &[u8], p: usize, op_count: u16, field_count: u16, generation: u32, expiration: u32) -> (r: Result<OperateRecord>)
    ensures
        match fields_end(d@, p as int, field_count as nat) {
            None => r is Err,
            Some(e) => match bins_at(d@, e, op_count as nat) {
                None => r is Err,
                Some((bs, _)) => match record_bins(bs) {
                    Some(b) => r matches Ok(rec) && rec.key is None && rec.generation == generation && rec.expiration
                        == expiration && bins_view(rec.bins@) == b,
                    None => r is Err,
                },
            },
        },
{
    let e = skip_fields(d, p, field_count)?;
    let (vs, _) = pre_parse_bins(d, e, op_count)?;
    let bins = bins_to_values(&vs)?;
    Ok(OperateRecord { key: None, bins, generation, expiration })
}

/// Reads the reply `d` (from its size word on) to a single-record
/// command: the record; or the reason of a failed user-defined function;
/// or the server's result code.
pub fn parse_result_internal(d: &[u8], bins_none: bool) -> (r: Result<OperateRecord>)
    ensures
        match read_reply(d@, bins_none) {
            ReplyView::Record(g, x, b) => r matches Ok(rec) && rec.key is None && rec.generation == g && rec.expiration
                == x && bins_view(rec.bins@) == b,
            ReplyView::Udf(s) => r matches Err(e) && e.0 matches ErrorKind::UdfBadResponse(m) && m@ == s,
            ReplyView::Server(c) => r matches Err(e) && e.0 matches ErrorKind::ServerError(rc) && result_code_byte(rc) == c,
            ReplyView::Malformed => r is Err,
        },
{
    if d.len() < MSG_TOTAL_HEADER_SIZE {
        return Err(Error::from_kind(ErrorKind::BadResponse("Truncated reply".to_owned())));
    }
    let h = parse_header(d, 8)?;
    if h.result_code == RC_OK {
        if bins_none {
            assert(bins_view(Seq::<(String, Value)>::empty()) =~= Seq::empty());
            return Ok(OperateRecord { key: None, bins: Vec::new(), generation: h.generation, expiration: h.expiration });
        }
        parse_record(d, MSG_TOTAL_HEADER_SIZE, h.op_count, h.field_count, h.generation, h.expiration)
    } else if h.result_code == RC_UDF_BAD_RESPONSE {
        let reason = parse_udf_error(d, MSG_TOTAL_HEADER_SIZE, h.op_count, h.field_count)?;
        Err(Error::from_kind(ErrorKind::UdfBadResponse(reason)))
    } else {
        Err(Error::from_kind(ErrorKind::ServerError(ResultCode::from_u8(h.result_code))))
    }
}

/// What the fields of a record say of its key: namespace, set, user key,
/// digest.
pub type KeyParts = (Seq<char>, Seq<char>, Option<ValueView>, Seq<u8>);

/// The key parts after the field of type `t` with payload `b`; `None` for
/// a field that cannot be read.
pub open spec fn apply_key_field(st: KeyParts, t: u8, b: Seq<u8>) -> Option<KeyParts> {
    if t == FIELD_DIGEST_RIPE {
        if b.len() == 20 {
            Some((st.0, st.1, st.2, b))
        } else {
            None
        }
    } else if t == FIELD_NAMESPACE {
        if valid_utf8(b) {
            Some((decode_utf8(b), st.1, st.2, st.3))
        } else {
            None
        }
    } else if t == FIELD_TABLE {
        if valid_utf8(b) {
            Some((st.0, decode_utf8(b), st.2, st.3))
        } else {
            None
        }
    } else if t == FIELD_KEY {
        if b.len() >= 1 {
            match particle_value(b[0], b.subrange(1, b.len() as int)) {
                Some(v) => Some((st.0, st.1, Some(v), st.3)),
                None => None,
            }
        } else {
            None
        }
    } else {
        None
    }
}

/// The key parts after `n` fields from `p`, starting from `st`, and where
/// the fields end.
pub open spec fn key_fields(d: Seq<u8>, p: int, n: nat, st: KeyParts) -> Option<(KeyParts, int)>
    decreases n,
{
    if n == 0 {
        Some((st, p))
    } else {
        match field_at(d, p) {
            Some((t, b, e)) => match apply_key_field(st, t, b) {
                Some(st2) => key_fields(d, e, (n - 1) as nat, st2),
                None => None,
            },
            None => None,
        }
    }
}

/// The key parts of a key.
pub open spec fn key_parts(k: Key) -> KeyParts {
    (
        k.namespace@,
        k.set_name@,
        match k.user_key {
            Some(v) => Some(v@),
            None => None,
        },
        k.digest@,
    )
}

/// Key parts before any field: empty names, no user key, a zero digest.
pub open spec fn empty_key_parts() -> KeyParts {
    (Seq::empty(), Seq::empty(), None, Seq::new(20, |i: int| 0u8))
}

/// Reads the key of a record from the `field_count` fields at `p`.
pub fn parse_key(d: &[u8], p: usize, field_count: u16) -> (r: Result<(Key, usize)>)
    ensures
        match key_fields(d@, p as int, field_count as nat, empty_key_parts()) {
            Some((st, e)) => r matches Ok((k, q)) && key_parts(k) == st && q == e,
            None => r matches Err(e) && e.0 is BadResponse,
        },
{
    let mut digest = [0u8; 20];
    let mut namespace = String::new();
    let mut set_name = String::new();
    let mut user_key: Option<Value> = None;
    assert(digest@ =~= Seq::new(20, |i: int| 0u8));
    assert(namespace@ =~= Seq::<char>::empty());
    let mut q = p;
    let mut i: u16 = 0;
    while i < field_count
        invariant
            i <= field_count,
            key_fields(d@, p as int, field_count as nat, empty_key_parts()) == key_fields(
                d@,
                q as int,
                (field_count - i) as nat,
                (namespace@, set_name@, match user_key {
                    Some(v) => Some(v@),
                    None => None,
                }, digest@),
            ),
        decreases field_count - i,
    {
        let (t, start, end) = read_field(d, q)?;
        let ghost payload = d@.subrange(start as int, end as int);
        let body = slice_subrange(d, start, end);
        if t == FIELD_DIGEST_RIPE {
            if body.len() != 20 {
                return Err(Error::from_kind(ErrorKind::BadResponse("Digest field must be 20 bytes".to_owned())));
            }
            let mut j: usize = 0;
            while j < 20
                invariant
                    body@ == payload,
                    payload.len() == 20,
                    j <= 20,
                    forall|k: int| 0 <= k < j ==> digest@[k] == payload[k],
                decreases 20 - j,
            {
                digest[j] = body[j];
                j = j + 1;
            }
            assert(digest@ =~= payload);
        } else if t == FIELD_NAMESPACE || t == FIELD_TABLE {
            match string_from_utf8(body) {
                Some(s) => if t == FIELD_NAMESPACE {
                    namespace = s;
                } else {
                    set_name = s;
                },
                None => {
                    return Err(Error::from_kind(ErrorKind::BadResponse("Field is not UTF-8".to_owned())));
                },
            }
        } else if t == FIELD_KEY {
            if body.len() < 1 {
                return Err(Error::from_kind(ErrorKind::BadResponse("Empty key field".to_owned())));
            }
            let v = PreParsedValue {
                particle_type: body[0],
                name_len: 0,
                name: [0u8; 15],
                particle: vstd::slice::slice_to_vec(slice_subrange(body, 1, body.len())),
            };
            match v.to_value() {
                Ok(k) => {
                    user_key = Some(k);
                },
                Err(_) => {
                    return Err(Error::from_kind(ErrorKind::BadResponse("Unreadable key particle".to_owned())));
                },
            }
        } else {
            return Err(Error::from_kind(ErrorKind::BadResponse("Unexpected field type".to_owned())));
        }
        q = end;
        i = i + 1;
    }
    Ok((Key { namespace, set_name, user_key, digest }, q))
}

/// One step of reading a stream of records.
#[derive(Debug)]
pub enum StreamItem {
    /// A record, with its key.
    Record(OperateRecord),
    /// A partition is done; more records may follow.
    PartitionDone,
    /// The stream has ended.
    End,
}

/// What the message of a stream at `p` holds, and where the next one
/// begins.
pub enum StreamStep {
    /// A record: key parts, bins, generation, expiration; then the end.
    Record(KeyParts, Seq<(Seq<char>, ValueView)>, u32, u32, int),
    PartitionDone(int),
    End(int),
    /// The server answered with this result code.
    ServerFailed(u8),
    /// The message cannot be read.
    Malformed,
}

/// The step of a stream at `p`: a `KeyNotFoundError` result code or the
/// last-message flag end the stream; another code other than `Ok` fails
/// it.
pub open spec fn stream_step(d: Seq<u8>, p: int) -> StreamStep {
    if p < 0 || p + MSG_REMAINING_HEADER_SIZE > d.len() {
        StreamStep::Malformed
    } else {
        let h = header_at(d, p);
        let end = p + MSG_REMAINING_HEADER_SIZE;
        if h.result_code != RC_OK {
            if h.result_code == RC_KEY_NOT_FOUND {
                StreamStep::End(end)
            } else {
                StreamStep::ServerFailed(h.result_code)
            }
        } else if h.info3 & INFO3_LAST != 0 {
            StreamStep::End(end)
        } else {
            match key_fields(d, end, h.field_count as nat, empty_key_parts()) {
                None => StreamStep::Malformed,
                Some((kp, e)) => if h.info3 & INFO3_PARTITION_DONE != 0 {
                    StreamStep::PartitionDone(e)
                } else {
                    match bins_at(d, e, h.op_count as nat) {
                        None => StreamStep::Malformed,
                        Some((bs, q)) => match record_bins(bs) {
                            None => StreamStep::Malformed,
                            Some(b) => StreamStep::Record(kp, b, h.generation, h.expiration, q),
                        },
                    }
                },
            }
        }
    }
}

/// What a record of a stream holds: key parts, bins, generation,
/// expiration.
pub type RecordView = (KeyParts, Seq<(Seq<char>, ValueView)>, u32, u32);

/// Whether `item` is the record `rv`.
pub open spec fn item_is_record(item: StreamItem, rv: RecordView) -> bool {
    match item {
        StreamItem::Record(rec) => rec.key matches Some(k) && key_parts(k) == rv.0 && bins_view(rec.bins@) == rv.1
            && rec.generation == rv.2 && rec.expiration == rv.3,
        _ => false,
    }
}

/// Reads the record whose 22-byte header is at `p` in a stream, returning
/// what it is and where the next one begins.
pub fn parse_stream_record(d: &[u8], p: usize) -> (r: Result<(StreamItem, usize)>)
    ensures
        match stream_step(d@, p as int) {
            StreamStep::Record(kp, b, g, x, e) => r matches Ok((item, q)) && q == e && item_is_record(item, (kp, b, g, x)),
            StreamStep::PartitionDone(e) => r matches Ok((item, q)) && item is PartitionDone && q == e,
            StreamStep::End(e) => r matches Ok((item, q)) && item is End && q == e,
            StreamStep::ServerFailed(c) => r matches Err(e) && e.0 matches ErrorKind::ServerError(rc) && result_code_byte(rc) == c,
            StreamStep::Malformed => r is Err,
        },
{
    let dlen = d.len();
    let h = parse_header(d, p)?;
    let end = p + MSG_REMAINING_HEADER_SIZE;
    if h.result_code != RC_OK {
        if h.result_code == RC_KEY_NOT_FOUND {
            return Ok((StreamItem::End, end));
        }
        return Err(Error::from_kind(ErrorKind::ServerError(ResultCode::from_u8(h.result_code))));
    }
    if h.info3 & INFO3_LAST != 0 {
        return Ok((StreamItem::End, end));
    }
    let (key, e) = parse_key(d, end, h.field_count)?;
    if h.info3 & INFO3_PARTITION_DONE != 0 {
        return Ok((StreamItem::PartitionDone, e));
    }
    let (vs, q) = pre_parse_bins(d, e, h.op_count)?;
    let bins = bins_to_values(&vs)?;
    Ok((StreamItem::Record(OperateRecord { key: Some(key), bins, generation: h.generation, expiration: h.expiration }), q))
}

/// The records of a stream from `p` to the end of `d`, and how the
/// stream went on: `Some(true)` where more messages are to come,
/// `Some(false)` where it ended, `None` where a message failed or could
/// not be read (the records are then those before it).
pub open spec fn stream_records(d: Seq<u8>, p: int) -> (Seq<RecordView>, Option<bool>)
    decreases d.len() - p,
{
    if p < 0 || p >= d.len() {
        (Seq::empty(), Some(true))
    } else {
        match stream_step(d, p) {
            StreamStep::End(_) => (Seq::empty(), Some(false)),
            StreamStep::PartitionDone(e) => if e <= p || e > d.len() {
                (Seq::empty(), None)
            } else {
                stream_records(d, e)
            },
            StreamStep::Record(kp, b, g, x, e) => if e <= p || e > d.len() {
                (Seq::empty(), None)
            } else {
                let (rs, o) = stream_records(d, e);
                (seq![(kp, b, g, x)] + rs, o)
            },
            _ => (Seq::empty(), None),
        }
    }
}

/// What a record holds.
pub open spec fn record_view(rec: OperateRecord) -> RecordView {
    (
        match rec.key {
            Some(k) => key_parts(k),
            None => empty_key_parts(),
        },
        bins_view(rec.bins@),
        rec.generation,
        rec.expiration,
    )
}

/// Reads the records of one chunk `d` of a stream. Returns the records
/// read, with whether the stream goes on after the chunk; or, where a
/// message fails, the records before it with the error, which ends the
/// stream.
pub fn parse_stream(d: &[u8]) -> (r: (Vec<OperateRecord>, Result<bool>))
    ensures
        r.0@.len() == stream_records(d@, 0).0.len(),
        forall|i: int|
            0 <= i < r.0@.len() ==> record_view(#[trigger] r.0@[i]) == stream_records(d@, 0).0[i] && r.0@[i].key is Some,
        match stream_records(d@, 0).1 {
            Some(more) => r.1 == Ok::<bool, Error>(more),
            None => r.1 is Err,
        },
{
    let mut out: Vec<OperateRecord> = Vec::new();
    let mut pos: usize = 0;
    while pos < d.len()
        invariant
            pos <= d@.len(),
            forall|i: int| 0 <= i < out@.len() ==> (#[trigger] out@[i]).key is Some,
            stream_records(d@, 0) == (Seq::new(out@.len(), |i: int| record_view(out@[i])) + stream_records(d@, pos as int).0,
                stream_records(d@, pos as int).1),
        decreases d@.len() - pos,
    {
        let ghost before = Seq::new(out@.len(), |i: int| record_view(out@[i]));
        let (item, e) = match parse_stream_record(d, pos) {
            Ok(x) => x,
            Err(err) => {
                assert(before + Seq::<RecordView>::empty() =~= before);
                return (out, Err(err));
            },
        };
        if e <= pos || e > d.len() {
            assert(before + Seq::<RecordView>::empty() =~= before);
            return (out, Err(Error::from_kind(ErrorKind::BadResponse("Stream did not advance".to_owned()))));
        }
        match item {
            StreamItem::Record(rec) => {
                let ghost rv = record_view(rec);
                out.push(rec);
                proof {
                    let now = Seq::new(out@.len(), |i: int| record_view(out@[i]));
                    assert(now =~= before.push(rv));
                    let rs = stream_records(d@, e as int).0;
                    assert(before + (seq![rv] + rs) =~= before.push(rv) + rs);
                }
            },
            StreamItem::PartitionDone => {},
            StreamItem::End => {
                proof {
                    let now = Seq::new(out@.len(), |i: int| record_view(out@[i]));
                    assert(now + Seq::<RecordView>::empty() =~= now);
                }
                return (out, Ok(false));
            },
        }
        pos = e;
    }
    proof {
        let now = Seq::new(out@.len(), |i: int| record_view(out@[i]));
        assert(now + Seq::<RecordView>::empty() =~= now);
    }
    (out, Ok(true))
}

} // verus!
