//! Values of the info protocol that tending reads: the rack of a node in
//! each namespace, and the partitions a node owns at each replica rank.

use vstd::prelude::*;
use vstd::slice::slice_subrange;
use vstd::utf8::{decode_utf8, encode_utf8, valid_utf8};

use crate::cluster::{has_node, Cluster};
use crate::errors::{Error, ErrorKind, Result};
use crate::node::{Host, Node};
use crate::partition::{PartitionForNamespace, PARTITIONS};
use crate::wire::{str_eq, string_from_utf8};

verus! {

/// The bytes of `s` cut at each `sep`; there is always at least one piece.
pub open spec fn split_on(s: Seq<u8>, sep: u8) -> Seq<Seq<u8>>
    decreases s.len(),
{
    if s.len() == 0 {
        seq![Seq::empty()]
    } else {
        let r = split_on(s.drop_last(), sep);
        if s.last() == sep {
            r.push(Seq::empty())
        } else {
            r.update(r.len() - 1, r.last().push(s.last()))
        }
    }
}

proof fn lemma_split_nonempty(s: Seq<u8>, sep: u8)
    ensures
        split_on(s, sep).len() >= 1,
    decreases s.len(),
{
    if s.len() > 0 {
        lemma_split_nonempty(s.drop_last(), sep);
    }
}

/// Cuts `s` at each `sep`.
pub fn split_bytes(s: &[u8], sep: u8) -> (r: Vec<Vec<u8>>)
    ensures
        r@.len() == split_on(s@, sep).len(),
        forall|i: int| 0 <= i < r@.len() ==> (#[trigger] r@[i])@ == split_on(s@, sep)[i],
{
    let mut r: Vec<Vec<u8>> = Vec::new();
    r.push(Vec::new());
    let mut i: usize = 0;
    while i < s.len()
        invariant
            i <= s@.len(),
            r@.len() == split_on(s@.subrange(0, i as int), sep).len(),
            r@.len() >= 1,
            forall|j: int| 0 <= j < r@.len() ==> (#[trigger] r@[j])@ == split_on(s@.subrange(0, i as int), sep)[j],
        decreases s@.len() - i,
    {
        assert(s@.subrange(0, i + 1).drop_last() =~= s@.subrange(0, i as int));
        let ghost prev = split_on(s@.subrange(0, i as int), sep);
        if s[i] == sep {
            r.push(Vec::new());
        } else {
            let last = r.len() - 1;
            r[last].push(s[i]);
            assert(r@[last as int]@ == prev[last as int].push(s@[i as int]));
        }
        i = i + 1;
        assert forall|j: int| 0 <= j < r@.len() implies (#[trigger] r@[j])@ == split_on(s@.subrange(0, i as int), sep)[j] by {
        }
    }
    assert(s@.subrange(0, i as int) =~= s@);
    r
}

/// Whether `b` is an ASCII digit.
pub open spec fn is_digit(b: u8) -> bool {
    48 <= b <= 57
}

/// The number that the digits `s` spell in base ten.
pub open spec fn digits_value(s: Seq<u8>) -> int
    decreases s.len(),
{
    if s.len() == 0 {
        0
    } else {
        digits_value(s.drop_last()) * 10 + (s.last() - 48)
    }
}

/// The digits of the decimal `s`: what follows a leading minus sign.
pub open spec fn decimal_digits(s: Seq<u8>) -> Seq<u8> {
    if s.len() > 0 && s[0] == 45 {
        s.subrange(1, s.len() as int)
    } else {
        s
    }
}

/// Whether every byte of `d` is a digit.
pub open spec fn all_digits(d: Seq<u8>) -> bool {
    forall|i: int| 0 <= i < d.len() ==> is_digit(#[trigger] d[i])
}

/// The integer that `s` spells: an optional minus sign and at least one
/// digit, within the range of `i64`.
pub open spec fn decimal_value(s: Seq<u8>) -> Option<int> {
    let neg = s.len() > 0 && s[0] == 45;
    let d = decimal_digits(s);
    if d.len() == 0 || !all_digits(d) {
        None
    } else {
        let v = if neg {
            -digits_value(d)
        } else {
            digits_value(d)
        };
        if i64::MIN <= v <= i64::MAX {
            Some(v)
        } else {
            None
        }
    }
}

proof fn lemma_digits_nonneg(s: Seq<u8>)
    requires
        forall|i: int| 0 <= i < s.len() ==> is_digit(#[trigger] s[i]),
    ensures
        digits_value(s) >= 0,
    decreases s.len(),
{
    if s.len() > 0 {
        lemma_digits_nonneg(s.drop_last());
    }
}

/// Reads the decimal integer `s`.
pub fn parse_decimal(s: &[u8]) -> (r: Result<i64>)
    ensures
        match decimal_value(s@) {
            Some(v) => r matches Ok(x) && x == v,
            None => r matches Err(e) && e.0 is ParseInt,
        },
{
    let neg = s.len() > 0 && s[0] == 45;
    let start: usize = if neg { 1 } else { 0 };
    let ghost d = decimal_digits(s@);
    if start >= s.len() {
        return Err(Error::from_kind(ErrorKind::ParseInt));
    }
    assert(!neg ==> s@.subrange(0, s@.len() as int) =~= s@);
    // the magnitude, kept within `i64::MAX + 1`
    let mut acc: u64 = 0;
    let mut i: usize = start;
    while i < s.len()
        invariant
            neg == (s@.len() > 0 && s@[0] == 45),
            start <= i <= s@.len(),
            start == (if neg { 1int } else { 0int }),
            d == s@.subrange(start as int, s@.len() as int),
            d == decimal_digits(s@),
            forall|j: int| 0 <= j < i - start ==> is_digit(#[trigger] d[j]),
            acc as int == digits_value(d.subrange(0, i - start)),
            acc <= 0x8000_0000_0000_0000,
        decreases s@.len() - i,
    {
        let b = s[i];
        if b < 48 || b > 57 {
            proof {
                assert(!is_digit(d[i - start]));
                lemma_decimal_none(s@, d, neg);
            }
            return Err(Error::from_kind(ErrorKind::ParseInt));
        }
        assert(d.subrange(0, i + 1 - start).drop_last() =~= d.subrange(0, i - start));
        if acc > (0x8000_0000_0000_0000 - (b - 48) as u64) / 10 {
            // the magnitude is already too large for i64, and only grows
            proof {
                let k: int = (i + 1 - start) as int;
                assert(d[k - 1] == b);
                assert(forall|j: int| 0 <= j < k ==> is_digit(#[trigger] d[j]));
                assert(d.subrange(0, k).last() == b);
                assert(digits_value(d.subrange(0, k)) == acc * 10 + (b - 48));
                assert(digits_value(d.subrange(0, k)) > 0x8000_0000_0000_0000);
                lemma_digits_grow(d, k);
                lemma_decimal_none(s@, d, neg);
            }
            return Err(Error::from_kind(ErrorKind::ParseInt));
        }
        acc = acc * 10 + (b - 48) as u64;
        i = i + 1;
    }
    assert(d.subrange(0, i - start) =~= d);
    if neg {
        if acc == 0x8000_0000_0000_0000 {
            Ok(i64::MIN)
        } else {
            Ok(-(acc as i64))
        }
    } else {
        if acc > 0x7fff_ffff_ffff_ffff {
            return Err(Error::from_kind(ErrorKind::ParseInt));
        }
        Ok(acc as i64)
    }
}

/// Once the digits of a prefix exceed `i64::MAX + 1`, the whole does too,
/// or holds a byte that is no digit.
proof fn lemma_digits_grow(d: Seq<u8>, k: int)
    requires
        0 <= k <= d.len(),
        forall|j: int| 0 <= j < k ==> is_digit(#[trigger] d[j]),
        digits_value(d.subrange(0, k)) > 0x8000_0000_0000_0000,
    ensures
        decimal_value_of_digits_fails(d),
    decreases d.len() - k,
{
    if k < d.len() {
        if is_digit(d[k]) {
            assert(d.subrange(0, k + 1).drop_last() =~= d.subrange(0, k));
            lemma_digits_grow(d, k + 1);
        }
    } else {
        assert(d.subrange(0, k) =~= d);
    }
}

proof fn lemma_decimal_none(s: Seq<u8>, d: Seq<u8>, neg: bool)
    requires
        neg == (s.len() > 0 && s[0] == 45),
        d == decimal_digits(s),
        decimal_value_of_digits_fails(d),
    ensures
        decimal_value(s) is None,
{
    if all_digits(d) {
        lemma_digits_nonneg(d);
    }
}

/// Digits `d` that spell no magnitude within `i64::MAX + 1`.
pub open spec fn decimal_value_of_digits_fails(d: Seq<u8>) -> bool {
    !all_digits(d) || digits_value(d) > 0x8000_0000_0000_0000
}

/// The namespace and rack of each non-empty `ns:rack` entry of `pieces`,
/// or `None` if one cannot be read.
pub open spec fn rack_list(pieces: Seq<Seq<u8>>) -> Option<Seq<(Seq<char>, i64)>>
    decreases pieces.len(),
{
    if pieces.len() == 0 {
        Some(Seq::empty())
    } else {
        match rack_list(pieces.drop_last()) {
            None => None,
            Some(r) => {
                let piece = pieces.last();
                if piece.len() == 0 {
                    Some(r)
                } else {
                    let parts = split_on(piece, 58);
                    if parts.len() == 2 && valid_utf8(parts[0]) && decimal_value(parts[1]) is Some {
                        Some(r.push((decode_utf8(parts[0]), decimal_value(parts[1])->0 as i64)))
                    } else {
                        None
                    }
                }
            },
        }
    }
}

/// The racks of a node as namespace and rack id.
pub open spec fn racks_view(racks: Seq<(String, i64)>) -> Seq<(Seq<char>, i64)> {
    Seq::new(racks.len(), |i: int| (racks[i].0@, racks[i].1))
}

impl Node {
    /// Takes in the node's `rack-ids` value: `ns:rack` entries separated
    /// by `;`. On failure the racks stay as they were.
    pub fn parse_rack(&mut self, buf: &str) -> (r: Result<()>)
        ensures
            match rack_list(split_on(encode_utf8(buf@), 59)) {
                Some(l) => r is Ok && racks_view(final(self).racks@) == l,
                None => r is Err && final(self).racks == old(self).racks,
            },
            final(self).id == old(self).id,
            final(self).name == old(self).name,
            final(self).active == old(self).active,
            final(self).failures == old(self).failures,
            final(self).reference_count == old(self).reference_count,
    {
        let pieces = split_bytes(buf.as_bytes(), 59);
        let ghost ps = split_on(encode_utf8(buf@), 59);
        let mut racks: Vec<(String, i64)> = Vec::new();
        let mut i: usize = 0;
        while i < pieces.len()
            invariant
                ps == split_on(encode_utf8(buf@), 59),
                pieces@.len() == ps.len(),
                forall|j: int| 0 <= j < ps.len() ==> (#[trigger] pieces@[j])@ == ps[j],
                i <= ps.len(),
                rack_list(ps.subrange(0, i as int)) == Some(racks_view(racks@)),
                self.racks == old(self).racks,
                self.id == old(self).id,
                self.name == old(self).name,
                self.active == old(self).active,
                self.failures == old(self).failures,
                self.reference_count == old(self).reference_count,
            decreases ps.len() - i,
        {
            assert(ps.subrange(0, i + 1).drop_last() =~= ps.subrange(0, i as int));
            assert(ps.subrange(0, i + 1).last() == pieces@[i as int]@);
            let piece = &pieces[i];
            if piece.len() > 0 {
                let parts = split_bytes(piece.as_slice(), 58);
                if parts.len() != 2 {
                    proof {
                        lemma_rack_list_prefix(ps, i + 1);
                    }
                    return Err(Error::from_kind(ErrorKind::BadResponse("Bad rack-ids entry".to_owned())));
                }
                let ns = match string_from_utf8(parts[0].as_slice()) {
                    Some(ns) => ns,
                    None => {
                        proof {
                            lemma_rack_list_prefix(ps, i + 1);
                        }
                        return Err(Error::from_kind(ErrorKind::InvalidUtf8));
                    },
                };
                let rack = match parse_decimal(parts[1].as_slice()) {
                    Ok(rack) => rack,
                    Err(e) => {
                        proof {
                            lemma_rack_list_prefix(ps, i + 1);
                        }
                        return Err(e);
                    },
                };
                let ghost before = racks_view(racks@);
                racks.push((ns, rack));
                assert(racks_view(racks@) =~= before.push((ns@, rack)));
            }
            i = i + 1;
        }
        assert(ps.subrange(0, i as int) =~= ps);
        self.racks = racks;
        Ok(())
    }
}

proof fn lemma_rack_list_prefix(ps: Seq<Seq<u8>>, k: int)
    requires
        0 <= k <= ps.len(),
        rack_list(ps.subrange(0, k)) is None,
    ensures
        rack_list(ps) is None,
    decreases ps.len() - k,
{
    if k < ps.len() {
        assert(ps.subrange(0, k + 1).drop_last() =~= ps.subrange(0, k));
        lemma_rack_list_prefix(ps, k + 1);
    } else {
        assert(ps.subrange(0, k) =~= ps);
    }
}

/// The name and value of each non-empty `name<TAB>value` line of an info
/// reply, or `None` if one cannot be read.
pub open spec fn info_pairs(lines: Seq<Seq<u8>>) -> Option<Seq<(Seq<char>, Seq<char>)>>
    decreases lines.len(),
{
    if lines.len() == 0 {
        Some(Seq::empty())
    } else {
        match info_pairs(lines.drop_last()) {
            None => None,
            Some(r) => {
                let line = lines.last();
                let parts = split_on(line, 9);
                if line.len() == 0 {
                    Some(r)
                } else if parts.len() == 1 && valid_utf8(parts[0]) {
                    Some(r.push((decode_utf8(parts[0]), Seq::empty())))
                } else if parts.len() == 2 && valid_utf8(parts[0]) && valid_utf8(parts[1]) {
                    Some(r.push((decode_utf8(parts[0]), decode_utf8(parts[1]))))
                } else {
                    None
                }
            },
        }
    }
}

proof fn lemma_info_pairs_prefix(ls: Seq<Seq<u8>>, k: int)
    requires
        0 <= k <= ls.len(),
        info_pairs(ls.subrange(0, k)) is None,
    ensures
        info_pairs(ls) is None,
    decreases ls.len() - k,
{
    if k < ls.len() {
        assert(ls.subrange(0, k + 1).drop_last() =~= ls.subrange(0, k));
        lemma_info_pairs_prefix(ls, k + 1);
    } else {
        assert(ls.subrange(0, k) =~= ls);
    }
}

/// The names and values of a list of pairs.
pub open spec fn pairs_view(v: Seq<(String, String)>) -> Seq<(Seq<char>, Seq<char>)> {
    Seq::new(v.len(), |i: int| (v[i].0@, v[i].1@))
}

/// Reads the body of an info reply: one `name<TAB>value` line per name
/// asked for.
pub fn parse_info_reply(body: &[u8]) -> (r: Result<Vec<(String, String)>>)
    ensures
        match info_pairs(split_on(body@, 10)) {
            Some(ps) => r matches Ok(v) && pairs_view(v@) == ps,
            None => r matches Err(e) && e.0 is BadResponse,
        },
{
    let lines = split_bytes(body, 10);
    let ghost ls = split_on(body@, 10);
    let mut out: Vec<(String, String)> = Vec::new();
    let mut i: usize = 0;
    while i < lines.len()
        invariant
            ls == split_on(body@, 10),
            lines@.len() == ls.len(),
            forall|j: int| 0 <= j < ls.len() ==> (#[trigger] lines@[j])@ == ls[j],
            i <= ls.len(),
            info_pairs(ls.subrange(0, i as int)) == Some(pairs_view(out@)),
        decreases ls.len() - i,
    {
        assert(ls.subrange(0, i + 1).drop_last() =~= ls.subrange(0, i as int));
        assert(ls.subrange(0, i + 1).last() == lines@[i as int]@);
        let line = &lines[i];
        if line.len() > 0 {
            let parts = split_bytes(line.as_slice(), 9);
            proof {
                lemma_split_nonempty(line@, 9);
            }
            let name = if parts.len() <= 2 {
                string_from_utf8(parts[0].as_slice())
            } else {
                None
            };
            let value = if parts.len() == 2 {
                string_from_utf8(parts[1].as_slice())
            } else if parts.len() == 1 {
                Some(String::new())
            } else {
                None
            };
            match (name, value) {
                (Some(n), Some(v)) => {
                    let ghost before = pairs_view(out@);
                    out.push((n, v));
                    assert(pairs_view(out@) =~= before.push((n@, v@)));
                },
                _ => {
                    proof {
                        lemma_info_pairs_prefix(ls, i + 1);
                    }
                    return Err(Error::from_kind(ErrorKind::BadResponse("Bad info reply line".to_owned())));
                },
            }
        }
        i = i + 1;
    }
    assert(ls.subrange(0, i as int) =~= ls);
    Ok(out)
}

/// The name and port of each non-empty `host:port` entry of `pieces`, or
/// `None` if one cannot be read.
pub open spec fn services_list(pieces: Seq<Seq<u8>>) -> Option<Seq<(Seq<char>, u16)>>
    decreases pieces.len(),
{
    if pieces.len() == 0 {
        Some(Seq::empty())
    } else {
        match services_list(pieces.drop_last()) {
            None => None,
            Some(r) => {
                let piece = pieces.last();
                let parts = split_on(piece, 58);
                if piece.len() == 0 {
                    Some(r)
                } else if parts.len() == 2 && valid_utf8(parts[0]) && decimal_value(parts[1]) is Some && 0
                    <= decimal_value(parts[1])->0 <= u16::MAX {
                    Some(r.push((decode_utf8(parts[0]), decimal_value(parts[1])->0 as u16)))
                } else {
                    None
                }
            },
        }
    }
}

proof fn lemma_services_prefix(ps: Seq<Seq<u8>>, k: int)
    requires
        0 <= k <= ps.len(),
        services_list(ps.subrange(0, k)) is None,
    ensures
        services_list(ps) is None,
    decreases ps.len() - k,
{
    if k < ps.len() {
        assert(ps.subrange(0, k + 1).drop_last() =~= ps.subrange(0, k));
        lemma_services_prefix(ps, k + 1);
    } else {
        assert(ps.subrange(0, k) =~= ps);
    }
}

/// Reads a `services` value: `host:port` entries separated by `;`.
pub fn parse_services(value: &str) -> (r: Result<Vec<Host>>)
    ensures
        match services_list(split_on(encode_utf8(value@), 59)) {
            Some(l) => r matches Ok(v) && v@.len() == l.len() && forall|i: int|
                0 <= i < l.len() ==> (#[trigger] v@[i])@ == (l[i].0, l[i].1, None::<Seq<char>>),
            None => r is Err,
        },
{
    let pieces = split_bytes(value.as_bytes(), 59);
    let ghost ps = split_on(encode_utf8(value@), 59);
    let mut out: Vec<Host> = Vec::new();
    let mut i: usize = 0;
    while i < pieces.len()
        invariant
            ps == split_on(encode_utf8(value@), 59),
            pieces@.len() == ps.len(),
            forall|j: int| 0 <= j < ps.len() ==> (#[trigger] pieces@[j])@ == ps[j],
            i <= ps.len(),
            services_list(ps.subrange(0, i as int)) matches Some(l) && l.len() == out@.len() && forall|j: int|
                0 <= j < l.len() ==> (#[trigger] out@[j])@ == (l[j].0, l[j].1, None::<Seq<char>>),
        decreases ps.len() - i,
    {
        assert(ps.subrange(0, i + 1).drop_last() =~= ps.subrange(0, i as int));
        assert(ps.subrange(0, i + 1).last() == pieces@[i as int]@);
        let piece = &pieces[i];
        if piece.len() > 0 {
            let parts = split_bytes(piece.as_slice(), 58);
            if parts.len() != 2 {
                proof {
                    lemma_services_prefix(ps, i + 1);
                }
                return Err(Error::from_kind(ErrorKind::BadResponse("Bad services entry".to_owned())));
            }
            let name = match string_from_utf8(parts[0].as_slice()) {
                Some(n) => n,
                None => {
                    proof {
                        lemma_services_prefix(ps, i + 1);
                    }
                    return Err(Error::from_kind(ErrorKind::InvalidUtf8));
                },
            };
            let port = match parse_decimal(parts[1].as_slice()) {
                Ok(p) => p,
                Err(e) => {
                    proof {
                        lemma_services_prefix(ps, i + 1);
                    }
                    return Err(e);
                },
            };
            if port < 0 || port > 0xffff {
                proof {
                    lemma_services_prefix(ps, i + 1);
                }
                return Err(Error::from_kind(ErrorKind::BadResponse("Port out of range".to_owned())));
            }
            out.push(Host::new(name, port as u16));
        }
        i = i + 1;
    }
    assert(ps.subrange(0, i as int) =~= ps);
    Ok(out)
}

/// The protocol version and message type of an info request.
pub const INFO_VERSION: u8 = 2;
pub const INFO_TYPE: u8 = 1;

/// The body of an info request: each name's UTF-8 followed by a newline.
pub open spec fn request_body(names: Seq<String>) -> Seq<u8>
    decreases names.len(),
{
    if names.len() == 0 {
        Seq::empty()
    } else {
        request_body(names.drop_last()) + encode_utf8(names.last()@) + seq![10u8]
    }
}

/// The bytes of an info request for `names`: the size word (version,
/// type, 48-bit length), then each name followed by a newline. Fails with
/// `InvalidArgument` where the body does not fit in 48 bits.
pub fn info_request(names: &Vec<String>) -> (r: Result<Vec<u8>>)
    ensures
        r is Ok <==> request_body(names@).len() < 0x1_0000_0000_0000,
        r matches Err(e) ==> e.0 is InvalidArgument,
        r matches Ok(v) ==> v@.len() >= 8 && v@[0] == INFO_VERSION && v@[1] == INFO_TYPE && crate::wire::be_uint(
            v@.subrange(2, 8),
        ) == v@.len() - 8 && v@.subrange(8, v@.len() as int) == request_body(names@),
{
    let mut body: Vec<u8> = Vec::new();
    let mut i: usize = 0;
    while i < names.len()
        invariant
            i <= names@.len(),
            body@ == request_body(names@.subrange(0, i as int)),
            body@.len() < 0x1_0000_0000_0000,
        decreases names@.len() - i,
    {
        let b = names[i].as_str().as_bytes();
        let ghost prefix = body@;
        assert(names@.subrange(0, i + 1).drop_last() =~= names@.subrange(0, i as int));
        assert(names@.subrange(0, i + 1).last() == names@[i as int]);
        let ghost whole = request_body(names@.subrange(0, i + 1));
        assert(whole == prefix + b@ + seq![10u8]);
        let mut j: usize = 0;
        while j < b.len()
            invariant
                j <= b@.len(),
                i < names@.len(),
                body@ == prefix + b@.subrange(0, j as int),
                prefix.len() < 0x1_0000_0000_0000,
                whole == prefix + b@ + seq![10u8],
                whole == request_body(names@.subrange(0, i + 1)),
            decreases b@.len() - j,
        {
            if body.len() as u64 >= 0xffff_ffff_ffff {
                proof {
                    lemma_request_body_grows(names@, i as int + 1);
                }
                return Err(Error::from_kind(ErrorKind::InvalidArgument("Info request too long".to_owned())));
            }
            body.push(b[j]);
            j = j + 1;
            assert(b@.subrange(0, j as int) =~= b@.subrange(0, j - 1).push(b@[j - 1]));
        }
        assert(b@.subrange(0, j as int) =~= b@);
        if body.len() as u64 >= 0xffff_ffff_ffff {
            proof {
                lemma_request_body_grows(names@, i as int + 1);
            }
            return Err(Error::from_kind(ErrorKind::InvalidArgument("Info request too long".to_owned())));
        }
        body.push(10);
        i = i + 1;
    }
    assert(names@.subrange(0, i as int) =~= names@);
    let mut out: Vec<u8> = Vec::new();
    out.push(INFO_VERSION);
    out.push(INFO_TYPE);
    crate::wire::write_be_uint(&mut out, body.len() as u64, 6);
    let ghost head = out@;
    proof {
        crate::wire::lemma_pow256_values();
        reveal_with_fuel(crate::wire::pow256, 7);
        assert(crate::wire::pow256(6) == 0x1_0000_0000_0000);
        crate::wire::lemma_be_bytes_round_trip(body@.len() as nat, 6);
        assert(head.subrange(2, 8) =~= crate::wire::be_bytes(body@.len() as nat, 6));
    }
    let mut k: usize = 0;
    while k < body.len()
        invariant
            k <= body@.len(),
            out@ == head + body@.subrange(0, k as int),
        decreases body@.len() - k,
    {
        out.push(body[k]);
        k = k + 1;
        assert(body@.subrange(0, k as int) =~= body@.subrange(0, k - 1).push(body@[k - 1]));
    }
    assert(body@.subrange(0, k as int) =~= body@);
    assert(out@.subrange(2, 8) =~= head.subrange(2, 8));
    assert(out@.subrange(8, out@.len() as int) =~= body@);
    Ok(out)
}

/// A longer list of names has a body at least as long, and longer than
/// the body of any shorter prefix.
proof fn lemma_request_body_grows(names: Seq<String>, k: int)
    requires
        0 <= k <= names.len(),
    ensures
        request_body(names).len() >= request_body(names.subrange(0, k)).len(),
    decreases names.len() - k,
{
    if k < names.len() {
        let a = names.subrange(0, k + 1);
        assert(a.drop_last() =~= names.subrange(0, k));
        lemma_request_body_grows(names, k + 1);
    } else {
        assert(names.subrange(0, k) =~= names);
    }
}

/// The bytes that the base64 text `s` (standard alphabet, padded)
/// encodes, or `None` where `s` is no such text.
pub uninterp spec fn base64_decoded(s: Seq<u8>) -> Option<Seq<u8>>;

/// Relies on `base64::decode` (standard alphabet): the bytes that `s`
/// encodes, or an error where `s` is not base64. It panics only where the
/// length of `s` plus three overflows.
#[verifier::external_body]
fn decode_base64(s: &[u8]) -> (r: Option<Vec<u8>>)
    requires
        s@.len() + 3 <= usize::MAX,
    ensures
        match base64_decoded(s@) {
            Some(b) => r matches Some(v) && v@ == b,
            None => r is None,
        },
{
    match base64::decode(s) {
        Ok(v) => Some(v),
        Err(_) => None,
    }
}

/// The bytes of a partition bitmap: one bit per partition.
pub const BITMAP_BYTES: usize = 512;

/// The most replica ranks a namespace may report.
pub const MAX_REPLICAS: usize = 255;

/// Whether bitmap `b` marks partition `p`: bit `p % 8`, counted from the
/// high bit, of byte `p / 8`.
pub open spec fn bit_set(b: Seq<u8>, p: int) -> bool {
    (b[p / 8] & (0x80u8 >> ((p % 8) as u8))) != 0
}

/// One namespace's entry of a `replicas` value: its name, and the decoded
/// bitmap of each rank.
pub open spec fn replicas_section(piece: Seq<u8>) -> Option<(Seq<char>, Seq<Seq<u8>>)> {
    let parts = split_on(piece, 44);
    if parts.len() >= 2 && valid_utf8(parts[0]) && decimal_value(parts[1]) is Some {
        let c = decimal_value(parts[1])->0;
        if 0 <= c <= MAX_REPLICAS && parts.len() == 2 + c && forall|r: int|
            0 <= r < c ==> ((#[trigger] base64_decoded(parts[2 + r])) matches Some(b) && b.len() == BITMAP_BYTES) {
            Some((decode_utf8(parts[0]), Seq::new(c as nat, |r: int| base64_decoded(parts[2 + r])->0)))
        } else {
            None
        }
    } else {
        None
    }
}

/// The entries of each non-empty piece, or `None` if one cannot be read.
pub open spec fn replicas_sections(pieces: Seq<Seq<u8>>) -> Option<Seq<(Seq<char>, Seq<Seq<u8>>)>>
    decreases pieces.len(),
{
    if pieces.len() == 0 {
        Some(Seq::empty())
    } else {
        match replicas_sections(pieces.drop_last()) {
            None => None,
            Some(r) => if pieces.last().len() == 0 {
                Some(r)
            } else {
                match replicas_section(pieces.last()) {
                    Some(sec) => Some(r.push(sec)),
                    None => None,
                }
            },
        }
    }
}

proof fn lemma_sections_prefix(ps: Seq<Seq<u8>>, k: int)
    requires
        0 <= k <= ps.len(),
        replicas_sections(ps.subrange(0, k)) is None,
    ensures
        replicas_sections(ps) is None,
    decreases ps.len() - k,
{
    if k < ps.len() {
        assert(ps.subrange(0, k + 1).drop_last() =~= ps.subrange(0, k));
        lemma_sections_prefix(ps, k + 1);
    } else {
        assert(ps.subrange(0, k) =~= ps);
    }
}

/// Whether some map of `pm` for namespace `ns` gives rank `r` of
/// partition `p` to node `id`.
pub open spec fn owner_recorded(pm: Seq<(String, PartitionForNamespace)>, ns: Seq<char>, r: int, p: int, id: u64) -> bool {
    exists|i: int| 0 <= i < pm.len() && (#[trigger] pm[i]).0@ == ns && pm[i].1.replica_at(r, p) == Some(id)
}

/// Reads one `namespace,count,bitmap…` entry.
fn read_section(piece: &Vec<u8>) -> (r: Result<(String, Vec<Vec<u8>>)>)
    requires
        piece@.len() + 3 <= usize::MAX,
    ensures
        match replicas_section(piece@) {
            Some((ns, bms)) => r matches Ok((n, v)) && n@ == ns && v@.len() == bms.len() && forall|k: int|
                0 <= k < v@.len() ==> (#[trigger] v@[k])@ == bms[k],
            None => r is Err,
        },
{
    let parts = split_bytes(piece.as_slice(), 44);
    let ghost sp = split_on(piece@, 44);
    proof {
        lemma_split_len_bound(piece@, 44);
    }
    if parts.len() < 2 {
        return Err(Error::from_kind(ErrorKind::BadResponse("Bad replicas entry".to_owned())));
    }
    let ns = match string_from_utf8(parts[0].as_slice()) {
        Some(ns) => ns,
        None => {
            return Err(Error::from_kind(ErrorKind::InvalidUtf8));
        },
    };
    let count = parse_decimal(parts[1].as_slice())?;
    if count < 0 || count > MAX_REPLICAS as i64 || parts.len() - 2 != count as usize {
        return Err(Error::from_kind(ErrorKind::BadResponse("Bad replica count".to_owned())));
    }
    let c = count as usize;
    let mut bitmaps: Vec<Vec<u8>> = Vec::new();
    let mut r: usize = 0;
    while r < c
        invariant
            sp == split_on(piece@, 44),
            parts@.len() == sp.len(),
            forall|j: int| 0 <= j < sp.len() ==> (#[trigger] parts@[j])@ == sp[j],
            forall|j: int| 0 <= j < sp.len() ==> (#[trigger] sp[j]).len() <= piece@.len(),
            piece@.len() + 3 <= usize::MAX,
            parts@.len() == 2 + c,
            c <= MAX_REPLICAS,
            r <= c,
            bitmaps@.len() == r,
            forall|k: int|
                0 <= k < r ==> ((#[trigger] base64_decoded(sp[2 + k])) matches Some(b) && b.len() == BITMAP_BYTES
                    && bitmaps@[k]@ == b),
        decreases c - r,
    {
        let bm = match decode_base64(parts[2 + r].as_slice()) {
            Some(bm) => bm,
            None => {
                return Err(Error::from_kind(ErrorKind::Base64));
            },
        };
        if bm.len() != BITMAP_BYTES {
            return Err(Error::from_kind(ErrorKind::BadResponse("Bitmap has the wrong size".to_owned())));
        }
        bitmaps.push(bm);
        r = r + 1;
    }
    proof {
        let bms = Seq::new(c as nat, |k: int| base64_decoded(sp[2 + k])->0);
        assert forall|k: int| 0 <= k < bitmaps@.len() implies (#[trigger] bitmaps@[k])@ == bms[k] by {
            assert(base64_decoded(sp[2 + k]) matches Some(b) && bitmaps@[k]@ == b);
        }
    }
    Ok((ns, bitmaps))
}

proof fn lemma_split_len_bound(s: Seq<u8>, sep: u8)
    ensures
        forall|j: int| 0 <= j < split_on(s, sep).len() ==> (#[trigger] split_on(s, sep)[j]).len() <= s.len(),
    decreases s.len(),
{
    if s.len() > 0 {
        let p = s.drop_last();
        lemma_split_len_bound(p, sep);
        lemma_split_nonempty(p, sep);
        let r = split_on(p, sep);
        let t = split_on(s, sep);
        assert forall|j: int| 0 <= j < t.len() implies (#[trigger] t[j]).len() <= s.len() by {
            if j < r.len() {
                assert(r[j].len() <= p.len());
            }
        }
    }
}

/// Slot `k` of map `i` of `new` is node `id`, empty, or as it was in
/// `old`.
pub open spec fn slot_ok(old: Seq<(String, PartitionForNamespace)>, new: Seq<(String, PartitionForNamespace)>, id: u64, i: int, k: int) -> bool {
    let e = new[i].1.nodes@[k].1;
    e == Some(id) || e is None || (i < old.len() && k < old[i].1.nodes@.len() && e == old[i].1.nodes@[k].1)
}

/// `new` grew from `old` by recording node `id` only: every namespace keeps
/// its position and name, no map loses slots, and a slot that changed
/// became `id` or empty.
pub open spec fn slots_evolve(old: Seq<(String, PartitionForNamespace)>, new: Seq<(String, PartitionForNamespace)>, id: u64) -> bool {
    &&& new.len() >= old.len()
    &&& forall|i: int| 0 <= i < old.len() ==> (#[trigger] new[i]).0 == old[i].0 && new[i].1.nodes@.len() >= old[i].1.nodes@.len()
    &&& forall|i: int, k: int| 0 <= i < new.len() && 0 <= k < new[i].1.nodes@.len() ==> #[trigger] slot_ok(old, new, id, i, k)
}

proof fn lemma_slots_evolve_trans(a: Seq<(String, PartitionForNamespace)>, b: Seq<(String, PartitionForNamespace)>, c: Seq<(String, PartitionForNamespace)>, id: u64)
    requires
        slots_evolve(a, b, id),
        slots_evolve(b, c, id),
    ensures
        slots_evolve(a, c, id),
{
    assert forall|i: int, k: int| 0 <= i < c.len() && 0 <= k < c[i].1.nodes@.len() implies #[trigger] slot_ok(a, c, id, i, k) by {
        assert(slot_ok(b, c, id, i, k));
        if i < b.len() && k < b[i].1.nodes@.len() {
            assert(slot_ok(a, b, id, i, k));
        }
    }
    assert forall|i: int| 0 <= i < a.len() implies (#[trigger] c[i]).0 == a[i].0 && c[i].1.nodes@.len() >= a[i].1.nodes@.len() by {
        assert(b[i].0 == a[i].0);
    }
}

impl Cluster {
    /// Makes node `id` the owner of each rank and partition that
    /// `bitmaps` mark in the map of namespace `ns`, adding the map, or
    /// rows to it, where needed.
    pub fn apply_section(&mut self, id: u64, ns: &String, bitmaps: &Vec<Vec<u8>>)
        requires
            old(self).wf(),
            has_node(old(self).nodes@, id),
            bitmaps@.len() <= MAX_REPLICAS,
            forall|k: int| 0 <= k < bitmaps@.len() ==> (#[trigger] bitmaps@[k])@.len() == BITMAP_BYTES,
        ensures
            final(self).wf(),
            final(self).nodes == old(self).nodes,
            final(self).aliases == old(self).aliases,
            final(self).next_node_id == old(self).next_node_id,
            final(self).seeds == old(self).seeds,
            slots_evolve(old(self).partition_write_map@, final(self).partition_write_map@, id),
            forall|rk: int, p: int|
                0 <= rk < bitmaps@.len() && 0 <= p < PARTITIONS && #[trigger] bit_set(bitmaps@[rk]@, p) ==> owner_recorded(
                    final(self).partition_write_map@,
                    ns@,
                    rk,
                    p,
                    id,
                ),
            forall|ns2: Seq<char>, rk: int, p: int|
                owner_recorded(old(self).partition_write_map@, ns2, rk, p, id) ==> #[trigger] owner_recorded(
                    final(self).partition_write_map@,
                    ns2,
                    rk,
                    p,
                    id,
                ),
    {
        let ghost pm0 = self.partition_write_map@;
        proof {
            crate::cluster::lemma_namespace_index_found(pm0, ns@, 0);
        }
        let c = bitmaps.len();
        let idx = match self.namespace_position(ns.as_str()) {
            Some(i) => i,
            None => {
                self.partition_write_map.push((ns.clone(), PartitionForNamespace::new()));
                self.partition_write_map.len() - 1
            },
        };
        assert(self.partition_write_map@[idx as int].0@ == ns@);
        let ghost pm1 = self.partition_write_map@;
        assert forall|ns2: Seq<char>, rk: int, p: int|
            owner_recorded(pm0, ns2, rk, p, id) implies #[trigger] owner_recorded(pm1, ns2, rk, p, id) by {
            let i = choose|i: int| 0 <= i < pm0.len() && (#[trigger] pm0[i]).0@ == ns2 && pm0[i].1.replica_at(rk, p) == Some(id);
            assert(pm1[i] == pm0[i]);
        }
        let need = c * PARTITIONS;
        while self.partition_write_map[idx].1.nodes.len() < need
            invariant
                idx < self.partition_write_map@.len(),
                self.partition_write_map@.len() == pm1.len(),
                forall|a: int| 0 <= a < pm1.len() && a != idx ==> (#[trigger] self.partition_write_map@[a]) == pm1[a],
                self.partition_write_map@[idx as int].0 == pm1[idx as int].0,
                self.partition_write_map@[idx as int].1.nodes@.len() >= pm1[idx as int].1.nodes@.len(),
                forall|k: int|
                    0 <= k < self.partition_write_map@[idx as int].1.nodes@.len() ==> (#[trigger] self.partition_write_map@[idx as int].1.nodes@[k])
                        == if k < pm1[idx as int].1.nodes@.len() {
                        pm1[idx as int].1.nodes@[k]
                    } else {
                        (0u32, None::<u64>)
                    },
                self.nodes == old(self).nodes,
                self.aliases == old(self).aliases,
                self.next_node_id == old(self).next_node_id,
                self.seeds == old(self).seeds,
            decreases need - self.partition_write_map@[idx as int].1.nodes@.len(),
        {
            self.partition_write_map[idx].1.nodes.push((0, None));
        }
        if self.partition_write_map[idx].1.replicas < c {
            self.partition_write_map[idx].1.replicas = c;
        }
        let ghost pm2 = self.partition_write_map@;
        proof {
            assert forall|ns2: Seq<char>, rk: int, p: int|
                owner_recorded(pm1, ns2, rk, p, id) implies #[trigger] owner_recorded(pm2, ns2, rk, p, id) by {
                let i = choose|i: int| 0 <= i < pm1.len() && (#[trigger] pm1[i]).0@ == ns2 && pm1[i].1.replica_at(rk, p) == Some(id);
                if i != idx {
                    assert(pm2[i] == pm1[i]);
                } else {
                    let k = rk * PARTITIONS + p;
                    assert(pm2[i].1.nodes@[k] == pm1[i].1.nodes@[k]);
                }
            }
            assert forall|a: int, k: int| 0 <= a < pm2.len() && 0 <= k < pm2[a].1.nodes@.len() implies
                ((#[trigger] pm2[a].1.nodes@[k]).1 matches Some(x) ==> has_node(self.nodes@, x)) by {
                if a != idx {
                    assert(pm2[a] == pm1[a]);
                    if a < pm0.len() {
                        assert(pm1[a] == pm0[a]);
                    }
                } else if k < pm1[idx as int].1.nodes@.len() {
                    if idx < pm0.len() {
                        assert(pm1[a] == pm0[a]);
                    }
                }
            }
        }
        let mut rk: usize = 0;
        while rk < c
            invariant
                c == bitmaps@.len(),
                c <= MAX_REPLICAS,
                forall|k: int| 0 <= k < bitmaps@.len() ==> (#[trigger] bitmaps@[k])@.len() == BITMAP_BYTES,
                has_node(self.nodes@, id),
                idx < self.partition_write_map@.len(),
                self.partition_write_map@.len() == pm2.len(),
                self.partition_write_map@[idx as int].0@ == ns@,
                self.partition_write_map@[idx as int].0 == pm2[idx as int].0,
                self.partition_write_map@[idx as int].1.nodes@.len() >= c * PARTITIONS,
                rk <= c,
                self.wf(),
                forall|a: int| 0 <= a < pm2.len() && a != idx ==> (#[trigger] self.partition_write_map@[a]) == pm2[a],
                forall|k: int|
                    0 <= k < pm2[idx as int].1.nodes@.len() ==> (#[trigger] self.partition_write_map@[idx as int].1.nodes@[k]) == pm2[idx as int].1.nodes@[k]
                        || self.partition_write_map@[idx as int].1.nodes@[k].1 == Some(id),
                self.partition_write_map@[idx as int].1.nodes@.len() == pm2[idx as int].1.nodes@.len(),
                forall|r2: int, p: int|
                    0 <= r2 < rk && 0 <= p < PARTITIONS && #[trigger] bit_set(bitmaps@[r2]@, p) ==> self.partition_write_map@[idx as int].1.nodes@[r2
                        * PARTITIONS + p].1 == Some(id),
                self.nodes == old(self).nodes,
                self.aliases == old(self).aliases,
                self.next_node_id == old(self).next_node_id,
                self.seeds == old(self).seeds,
            decreases c - rk,
        {
            let bm = &bitmaps[rk];
            let mut p: usize = 0;
            while p < PARTITIONS
                invariant
                    c == bitmaps@.len(),
                    c <= MAX_REPLICAS,
                    rk < c,
                    bm@ == bitmaps@[rk as int]@,
                    bm@.len() == BITMAP_BYTES,
                    has_node(self.nodes@, id),
                    idx < self.partition_write_map@.len(),
                    self.partition_write_map@.len() == pm2.len(),
                    self.partition_write_map@[idx as int].0@ == ns@,
                    self.partition_write_map@[idx as int].0 == pm2[idx as int].0,
                    self.partition_write_map@[idx as int].1.nodes@.len() >= c * PARTITIONS,
                    p <= PARTITIONS,
                    self.wf(),
                    forall|a: int| 0 <= a < pm2.len() && a != idx ==> (#[trigger] self.partition_write_map@[a]) == pm2[a],
                    forall|k: int|
                        0 <= k < pm2[idx as int].1.nodes@.len() ==> (#[trigger] self.partition_write_map@[idx as int].1.nodes@[k]) == pm2[idx as int].1.nodes@[k]
                            || self.partition_write_map@[idx as int].1.nodes@[k].1 == Some(id),
                    self.partition_write_map@[idx as int].1.nodes@.len() == pm2[idx as int].1.nodes@.len(),
                    forall|r2: int, q: int|
                        0 <= r2 < rk && 0 <= q < PARTITIONS && #[trigger] bit_set(bitmaps@[r2]@, q) ==> self.partition_write_map@[idx as int].1.nodes@[r2
                            * PARTITIONS + q].1 == Some(id),
                    forall|q: int|
                        0 <= q < p && bit_set(bitmaps@[rk as int]@, q) ==> (#[trigger] self.partition_write_map@[idx as int].1.nodes@[rk
                            * PARTITIONS + q]).1 == Some(id),
                    self.nodes == old(self).nodes,
                    self.aliases == old(self).aliases,
                    self.next_node_id == old(self).next_node_id,
                    self.seeds == old(self).seeds,
                decreases PARTITIONS - p,
            {
                if bm[p / 8] & (0x80u8 >> ((p % 8) as u8)) != 0 {
                    let k = rk * PARTITIONS + p;
                    let ghost before = self.partition_write_map@;
                    let (regime, _) = self.partition_write_map[idx].1.nodes[k];
                    self.partition_write_map[idx].1.nodes.set(k, (regime, Some(id)));
                    proof {
                        let pm = self.partition_write_map@;
                        assert forall|a: int| 0 <= a < pm.len() && a != idx implies (#[trigger] pm[a]) == pm2[a] by {
                            assert(pm[a] == before[a]);
                        }
                        assert forall|a: int, j: int| 0 <= a < pm.len() && 0 <= j < pm[a].1.nodes@.len() implies
                            ((#[trigger] pm[a].1.nodes@[j]).1 matches Some(x) ==> has_node(self.nodes@, x)) by {
                            if a != idx {
                                assert(pm[a] == before[a]);
                            } else if j != k {
                                assert(pm[a].1.nodes@[j] == before[a].1.nodes@[j]);
                            }
                        }
                    }
                }
                p = p + 1;
            }
            rk = rk + 1;
        }
        proof {
            let pm = self.partition_write_map@;
            assert forall|i: int| 0 <= i < pm0.len() implies (#[trigger] pm[i]).0 == pm0[i].0 && pm[i].1.nodes@.len()
                >= pm0[i].1.nodes@.len() by {
                assert(pm1[i] == pm0[i]);
                if i != idx {
                    assert(pm[i] == pm2[i]);
                } else {
                    assert(pm[i].0 == pm2[i].0);
                    assert(pm2[i].0 == pm1[i].0);
                }
            }
            assert forall|i: int, k: int| 0 <= i < pm.len() && 0 <= k < pm[i].1.nodes@.len() implies #[trigger] slot_ok(pm0, pm, id, i, k) by {
                if i != idx {
                    assert(pm[i] == pm2[i]);
                    assert(i < pm0.len());
                    assert(pm1[i] == pm0[i]);
                } else {
                    if pm[i].1.nodes@[k] != pm2[i].1.nodes@[k] {
                    } else if k < pm1[i].1.nodes@.len() {
                        if i < pm0.len() {
                            assert(pm1[i] == pm0[i]);
                        }
                    }
                }
            }
            assert forall|r2: int, p: int|
                0 <= r2 < bitmaps@.len() && 0 <= p < PARTITIONS && #[trigger] bit_set(bitmaps@[r2]@, p) implies owner_recorded(
                    pm,
                    ns@,
                    r2,
                    p,
                    id,
                ) by {
                assert(pm[idx as int].1.nodes@[r2 * PARTITIONS + p].1 == Some(id));
                assert(pm[idx as int].1.replica_at(r2, p) == Some(id));
            }
            assert forall|ns2: Seq<char>, r2: int, p: int|
                owner_recorded(pm2, ns2, r2, p, id) implies #[trigger] owner_recorded(pm, ns2, r2, p, id) by {
                let i = choose|i: int| 0 <= i < pm2.len() && (#[trigger] pm2[i]).0@ == ns2 && pm2[i].1.replica_at(r2, p) == Some(id);
                if i != idx {
                    assert(pm[i] == pm2[i]);
                } else {
                    let k = r2 * PARTITIONS + p;
                    assert(pm[i].1.nodes@[k] == pm2[i].1.nodes@[k] || pm[i].1.nodes@[k].1 == Some(id));
                }
            }
        }
    }

    /// Takes in node `id`'s `replicas` value: `namespace,count,bitmap…`
    /// entries separated by `;`, one base64 bitmap per rank. Node `id`
    /// becomes the owner of every rank and partition that a bitmap marks.
    /// Nothing changes where the value cannot be read.
    pub fn update_partitions(&mut self, id: u64, info: &str) -> (r: Result<()>)
        requires
            old(self).wf(),
            has_node(old(self).nodes@, id),
            encode_utf8(info@).len() + 3 <= usize::MAX,
        ensures
            final(self).wf(),
            final(self).nodes == old(self).nodes,
            final(self).aliases == old(self).aliases,
            final(self).next_node_id == old(self).next_node_id,
            final(self).seeds == old(self).seeds,
            slots_evolve(old(self).partition_write_map@, final(self).partition_write_map@, id),
            match replicas_sections(split_on(encode_utf8(info@), 59)) {
                None => r is Err && final(self).partition_write_map == old(self).partition_write_map,
                Some(secs) => r is Ok && forall|k: int, rk: int, p: int|
                    0 <= k < secs.len() && 0 <= rk < secs[k].1.len() && 0 <= p < PARTITIONS && #[trigger] bit_set(
                        secs[k].1[rk],
                        p,
                    ) ==> owner_recorded(final(self).partition_write_map@, secs[k].0, rk, p, id),
            },
    {
        let bytes = info.as_bytes();
        let pieces = split_bytes(bytes, 59);
        let ghost ps = split_on(encode_utf8(info@), 59);
        proof {
            lemma_split_len_bound(encode_utf8(info@), 59);
        }
        let mut sections: Vec<(String, Vec<Vec<u8>>)> = Vec::new();
        let mut i: usize = 0;
        while i < pieces.len()
            invariant
                ps == split_on(encode_utf8(info@), 59),
                pieces@.len() == ps.len(),
                forall|j: int| 0 <= j < ps.len() ==> (#[trigger] pieces@[j])@ == ps[j],
                forall|j: int| 0 <= j < ps.len() ==> (#[trigger] ps[j]).len() <= encode_utf8(info@).len(),
                encode_utf8(info@).len() + 3 <= usize::MAX,
                i <= ps.len(),
                replicas_sections(ps.subrange(0, i as int)) matches Some(secs) && secs.len() == sections@.len() && forall|k: int|
                    0 <= k < secs.len() ==> section_matches(#[trigger] sections@[k], secs[k]),
                self.partition_write_map == old(self).partition_write_map,
                self.wf(),
                self.nodes == old(self).nodes,
                self.aliases == old(self).aliases,
                self.next_node_id == old(self).next_node_id,
                self.seeds == old(self).seeds,
            decreases ps.len() - i,
        {
            assert(ps.subrange(0, i + 1).drop_last() =~= ps.subrange(0, i as int));
            assert(ps.subrange(0, i + 1).last() == pieces@[i as int]@);
            if pieces[i].len() > 0 {
                match read_section(&pieces[i]) {
                    Ok(sec) => {
                        sections.push(sec);
                    },
                    Err(e) => {
                        proof {
                            lemma_sections_prefix(ps, i + 1);
                        }
                        return Err(e);
                    },
                }
            }
            i = i + 1;
        }
        assert(ps.subrange(0, i as int) =~= ps);
        let ghost secs = replicas_sections(ps)->0;
        proof {
            let pm = self.partition_write_map@;
            assert forall|i: int, k: int| 0 <= i < pm.len() && 0 <= k < pm[i].1.nodes@.len() implies #[trigger] slot_ok(pm, pm, id, i, k) by {}
        }
        let mut k: usize = 0;
        while k < sections.len()
            invariant
                secs.len() == sections@.len(),
                forall|j: int| 0 <= j < secs.len() ==> section_matches(#[trigger] sections@[j], secs[j]),
                k <= sections@.len(),
                self.wf(),
                has_node(self.nodes@, id),
                self.nodes == old(self).nodes,
                self.aliases == old(self).aliases,
                self.next_node_id == old(self).next_node_id,
                self.seeds == old(self).seeds,
                slots_evolve(old(self).partition_write_map@, self.partition_write_map@, id),
                forall|j: int, rk: int, p: int|
                    0 <= j < k && 0 <= rk < secs[j].1.len() && 0 <= p < PARTITIONS && #[trigger] bit_set(secs[j].1[rk], p)
                        ==> owner_recorded(self.partition_write_map@, secs[j].0, rk, p, id),
            decreases sections@.len() - k,
        {
            let (ns, bitmaps) = &sections[k];
            assert(section_matches(sections@[k as int], secs[k as int]));
            let ghost before = self.partition_write_map@;
            self.apply_section(id, ns, bitmaps);
            proof {
                lemma_slots_evolve_trans(old(self).partition_write_map@, before, self.partition_write_map@, id);
                assert forall|j: int, rk: int, p: int|
                    0 <= j < k + 1 && 0 <= rk < secs[j].1.len() && 0 <= p < PARTITIONS && #[trigger] bit_set(secs[j].1[rk], p)
                        implies owner_recorded(self.partition_write_map@, secs[j].0, rk, p, id) by {
                    if j < k {
                        assert(owner_recorded(before, secs[j].0, rk, p, id));
                    } else {
                        assert(bitmaps@[rk]@ == secs[j].1[rk]);
                        assert(bit_set(bitmaps@[rk]@, p));
                    }
                }
            }
            k = k + 1;
        }
        Ok(())
    }

    /// Takes in node `id`'s `rack-ids` value, and the rebalance generation
    /// that came with it, if any. Nothing changes where the value cannot
    /// be read or the node is not live.
    pub fn update_rack_ids(&mut self, id: u64, rack_ids: &str, rebalance_generation: Option<i64>) -> (r: Result<()>)
        requires
            old(self).wf(),
        ensures
            final(self).wf(),
            final(self).nodes@.len() == old(self).nodes@.len(),
            forall|i: int|
                0 <= i < old(self).nodes@.len() ==> (#[trigger] final(self).nodes@[i]).id == old(self).nodes@[i].id
                    && final(self).nodes@[i].name == old(self).nodes@[i].name,
            forall|i: int|
                0 <= i < old(self).nodes@.len() && (#[trigger] old(self).nodes@[i]).id == id ==> match rack_list(
                    split_on(encode_utf8(rack_ids@), 59),
                ) {
                    Some(l) => r is Ok && racks_view(final(self).nodes@[i].racks@) == l,
                    None => r is Err && final(self).nodes@[i].racks == old(self).nodes@[i].racks,
                },
            !has_node(old(self).nodes@, id) ==> (r matches Err(e) && e.0 is InvalidNode),
            final(self).aliases == old(self).aliases,
            final(self).partition_write_map == old(self).partition_write_map,
            final(self).next_node_id == old(self).next_node_id,
            final(self).seeds == old(self).seeds,
    {
        match self.node_position(id) {
            None => Err(Error::from_kind(ErrorKind::InvalidNode("Node is not in the cluster".to_owned()))),
            Some(i) => {
                let ghost before = self.nodes@;
                let r = self.nodes[i].parse_rack(rack_ids);
                if r.is_ok() {
                    if let Some(g) = rebalance_generation {
                        self.nodes[i].rebalance_generation = g;
                    }
                }
                proof {
                    assert forall|a: int| 0 <= a < self.aliases@.len() implies has_node(self.nodes@, (#[trigger] self.aliases@[a]).1) by {
                        let j = choose|j: int| 0 <= j < before.len() && (#[trigger] before[j]).id == self.aliases@[a].1;
                        assert(self.nodes@[j].id == before[j].id);
                    }
                    let pm = self.partition_write_map@;
                    assert forall|a: int, k: int| 0 <= a < pm.len() && 0 <= k < pm[a].1.nodes@.len() implies
                        ((#[trigger] pm[a].1.nodes@[k]).1 matches Some(x) ==> has_node(self.nodes@, x)) by {
                        if let Some(x) = pm[a].1.nodes@[k].1 {
                            let j = choose|j: int| 0 <= j < before.len() && (#[trigger] before[j]).id == x;
                            assert(self.nodes@[j].id == before[j].id);
                        }
                    }
                    assert forall|a: int| 0 <= a < before.len() && (#[trigger] before[a]).id == id implies a == i by {
                        if a != i {
                            assert(before[a].id != before[i as int].id);
                        }
                    }
                }
                r
            },
        }
    }
}

/// Whether a read entry holds what the spec entry says.
pub open spec fn section_matches(sec: (String, Vec<Vec<u8>>), spec_sec: (Seq<char>, Seq<Seq<u8>>)) -> bool {
    &&& sec.0@ == spec_sec.0
    &&& sec.1@.len() == spec_sec.1.len()
    &&& sec.1@.len() <= MAX_REPLICAS
    &&& forall|r: int| 0 <= r < sec.1@.len() ==> (#[trigger] sec.1@[r])@ == spec_sec.1[r] && sec.1@[r]@.len() == BITMAP_BYTES
}

} // verus!
