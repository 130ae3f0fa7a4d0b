//! Splitting a container into its framed sections and writing them back.
//!
//! A container is an 8-byte header followed by sections, each framed as a
//! kind byte, a varint payload length, and that many payload bytes.  Kind 0
//! marks a custom section, whose payload starts with a varint-length-prefixed
//! UTF-8 tag; every other section is carried as an opaque byte range.

use vstd::prelude::*;
use crate::DecodeError;
use crate::varint::{
    varint_encode, varint_decode, varint_limit, lemma_varint_encode_len,
    lemma_raw_varint_consumes, encode_varint, decode_varint,
};

verus! {

/// Mathematical shape of one section.
#[verifier::ext_equal]
pub enum SectionModel {
    /// Any section the codec passes through untouched: its kind byte and its
    /// raw payload.
    Standard { kind: u8, payload: Seq<u8> },
    /// A custom section: its tag and the bytes after the tag.
    Custom { tag: Seq<u8>, payload: Seq<u8> },
}

/// Mathematical shape of a whole container.
#[verifier::ext_equal]
pub struct ContainerModel {
    pub header: Seq<u8>,
    pub sections: Seq<SectionModel>,
}

/// One section of the container.
pub enum Section {
    /// A section the codec does not interpret.
    Standard { kind: u8, payload: Vec<u8> },
    /// A custom section, framed internally as tag plus sub-payload.
    Custom { tag: Vec<u8>, payload: Vec<u8> },
}

/// A container: its fixed-width header and its ordered sections.
pub struct Container {
    pub header: Vec<u8>,
    pub sections: Vec<Section>,
}

impl View for Section {
    type V = SectionModel;

    open spec fn view(&self) -> SectionModel {
        match self {
            Section::Standard { kind, payload } => SectionModel::Standard {
                kind: *kind,
                payload: payload@,
            },
            Section::Custom { tag, payload } => SectionModel::Custom {
                tag: tag@,
                payload: payload@,
            },
        }
    }
}

impl View for Container {
    type V = ContainerModel;

    open spec fn view(&self) -> ContainerModel {
        ContainerModel {
            header: self.header@,
            sections: self.sections@.map_values(|s: Section| s@),
        }
    }
}

/// Whether a byte sequence is valid UTF-8.
pub uninterp spec fn is_utf8(s: Seq<u8>) -> bool;

/// Relies on core::str::from_utf8: it returns `Ok` exactly when its input is
/// valid UTF-8.  Only this decides the tag check the format asks for.
#[verifier::external_body]
fn check_utf8(v: &[u8]) -> (r: bool)
    ensures
        r == is_utf8(v@),
{
    core::str::from_utf8(v).is_ok()
}

/// The kind byte a section is framed under; custom sections use kind 0.
pub open spec fn section_kind(s: SectionModel) -> u8 {
    match s {
        SectionModel::Standard { kind, .. } => kind,
        SectionModel::Custom { .. } => 0,
    }
}

/// The payload bytes a section is framed around: for a custom section the
/// tag framing is part of the payload.
pub open spec fn section_payload(s: SectionModel) -> Seq<u8> {
    match s {
        SectionModel::Standard { payload, .. } => payload,
        SectionModel::Custom { tag, payload } => varint_encode(tag.len()) + tag + payload,
    }
}

/// A section's payload length must fit the 32-bit length field.
pub open spec fn section_encodable(s: SectionModel) -> bool {
    section_payload(s).len() < varint_limit()
}

/// Every length field of the container fits 32 bits.
pub open spec fn container_encodable(c: ContainerModel) -> bool {
    forall|i: int| 0 <= i < c.sections.len() ==> section_encodable(#[trigger] c.sections[i])
}

/// The wire form of one section: kind byte, varint payload length, payload.
pub open spec fn section_bytes(s: SectionModel) -> Seq<u8> {
    seq![section_kind(s)] + varint_encode(section_payload(s).len()) + section_payload(s)
}

/// The wire form of a run of sections, in order.
pub open spec fn sections_bytes(ss: Seq<SectionModel>) -> Seq<u8>
    decreases ss.len(),
{
    if ss.len() == 0 {
        Seq::empty()
    } else {
        section_bytes(ss[0]) + sections_bytes(ss.skip(1))
    }
}

/// The wire form of a whole container.
pub open spec fn container_bytes(c: ContainerModel) -> Seq<u8> {
    c.header + sections_bytes(c.sections)
}

/// Appending a section extends the wire form on the right.
pub proof fn lemma_sections_bytes_push(ss: Seq<SectionModel>, x: SectionModel)
    ensures
        sections_bytes(ss.push(x)) == sections_bytes(ss) + section_bytes(x),
    decreases ss.len(),
{
    if ss.len() == 0 {
        assert(ss.push(x)[0] == x);
        assert(ss.push(x).skip(1) =~= Seq::<SectionModel>::empty());
        assert(sections_bytes(ss.push(x)) == section_bytes(x) + sections_bytes(
            Seq::<SectionModel>::empty(),
        ));
        assert(sections_bytes(Seq::<SectionModel>::empty()) == Seq::<u8>::empty());
        assert(sections_bytes(ss) == Seq::<u8>::empty());
        assert(sections_bytes(ss.push(x)) =~= sections_bytes(ss) + section_bytes(x));
    } else {
        assert(ss.push(x).skip(1) =~= ss.skip(1).push(x));
        lemma_sections_bytes_push(ss.skip(1), x);
        assert(ss.push(x)[0] == ss[0]);
        assert(sections_bytes(ss.push(x)) == section_bytes(ss[0]) + (sections_bytes(ss.skip(1))
            + section_bytes(x)));
        assert(section_bytes(ss[0]) + (sections_bytes(ss.skip(1)) + section_bytes(x)) =~= (
        section_bytes(ss[0]) + sections_bytes(ss.skip(1))) + section_bytes(x));
    }
}

/// Reading a custom section's payload: varint tag length, tag bytes (which
/// must be UTF-8), then the sub-payload.
pub open spec fn parse_custom_payload(p: Seq<u8>) -> Result<SectionModel, DecodeError> {
    match varint_decode(p) {
        None => Err(DecodeError::MalformedVarint),
        Some((tl, n)) => if p.len() - n < tl {
            Err(DecodeError::TruncatedSection)
        } else if !is_utf8(p.skip(n as int).take(tl as int)) {
            Err(DecodeError::InvalidUtf8)
        } else {
            Ok(
                SectionModel::Custom {
                    tag: p.skip(n as int).take(tl as int),
                    payload: p.skip(n as int).skip(tl as int),
                },
            )
        },
    }
}

/// Reading a run of sections from the front of `s` until it is exhausted.
pub open spec fn parse_sections(s: Seq<u8>) -> Result<Seq<SectionModel>, DecodeError>
    decreases s.len(),
    via parse_sections_decreases
{
    if s.len() == 0 {
        Ok(Seq::empty())
    } else {
        match varint_decode(s.skip(1)) {
            None => Err(DecodeError::MalformedVarint),
            Some((v, n)) => {
                let after = s.skip(1).skip(n as int);
                if after.len() < v {
                    Err(DecodeError::TruncatedSection)
                } else {
                    let head = if s[0] == 0 {
                        parse_custom_payload(after.take(v as int))
                    } else {
                        Ok(SectionModel::Standard { kind: s[0], payload: after.take(v as int) })
                    };
                    match head {
                        Err(e) => Err(e),
                        Ok(sec) => match parse_sections(after.skip(v as int)) {
                            Err(e) => Err(e),
                            Ok(tail) => Ok(seq![sec] + tail),
                        },
                    }
                }
            },
        }
    }
}

#[via_fn]
proof fn parse_sections_decreases(s: Seq<u8>) {
    if s.len() != 0 {
        lemma_raw_varint_consumes(s.skip(1));
    }
}

/// Reading a whole container: 8 header bytes, then sections to the end.
pub open spec fn parse_container(b: Seq<u8>) -> Result<ContainerModel, DecodeError> {
    if b.len() < 8 {
        Err(DecodeError::TruncatedSection)
    } else {
        match parse_sections(b.skip(8)) {
            Err(e) => Err(e),
            Ok(ss) => Ok(ContainerModel { header: b.take(8), sections: ss }),
        }
    }
}

/// A parse result with already-read sections put back in front of it.
pub open spec fn prepend_sections(
    prefix: Seq<SectionModel>,
    r: Result<Seq<SectionModel>, DecodeError>,
) -> Result<Seq<SectionModel>, DecodeError> {
    match r {
        Ok(tail) => Ok(prefix + tail),
        Err(e) => Err(e),
    }
}

/// Copies `bytes[start..end]` into a fresh vector.
pub fn copy_range(bytes: &[u8], start: usize, end: usize) -> (r: Vec<u8>)
    requires
        start <= end <= bytes@.len(),
    ensures
        r@ == bytes@.subrange(start as int, end as int),
{
    let s = vstd::slice::slice_subrange(bytes, start, end);
    vstd::slice::slice_to_vec(s)
}

/// Appends all of `b` to `out`.
pub fn push_bytes(out: &mut Vec<u8>, b: &[u8])
    ensures
        final(out)@ == old(out)@ + b@,
{
    let mut idx: usize = 0;
    while idx < b.len()
        invariant
            idx <= b@.len(),
            out@ == old(out)@ + b@.take(idx as int),
        decreases b@.len() - idx,
    {
        out.push(b[idx]);
        proof {
            assert(old(out)@ + b@.take(idx as int) + seq![b@[idx as int]] =~= old(out)@
                + b@.take(idx as int + 1));
        }
        idx = idx + 1;
    }
    proof {
        assert(b@.take(b@.len() as int) =~= b@);
    }
}

/// Reads one custom section's payload.
fn parse_custom(p: &[u8]) -> (r: Result<Section, DecodeError>)
    ensures
        match r {
            Ok(sec) => parse_custom_payload(p@) == Ok::<SectionModel, DecodeError>(sec@),
            Err(e) => parse_custom_payload(p@) == Err::<SectionModel, DecodeError>(e),
        },
{
    proof {
        assert(p@.skip(0) =~= p@);
        lemma_raw_varint_consumes(p@);
    }
    let (tl, n) = match decode_varint(p, 0) {
        Ok(pair) => pair,
        Err(e) => {
            return Err(e);
        },
    };
    let tl_us = tl as usize;
    if p.len() - n < tl_us {
        return Err(DecodeError::TruncatedSection);
    }
    let tag = copy_range(p, n, n + tl_us);
    proof {
        assert(p@.skip(n as int).take(tl as int) =~= p@.subrange(n as int, n as int + tl as int));
    }
    if !check_utf8(tag.as_slice()) {
        return Err(DecodeError::InvalidUtf8);
    }
    let payload = copy_range(p, n + tl_us, p.len());
    proof {
        assert(p@.skip(n as int).skip(tl as int) =~= p@.subrange(
            n as int + tl as int,
            p@.len() as int,
        ));
    }
    Ok(Section::Custom { tag, payload })
}

/// Splits a container into its ordered sections.  Succeeds exactly on
/// well-formed containers; the error says which framing expectation failed.
pub fn parse(bytes: &[u8]) -> (r: Result<Container, DecodeError>)
    ensures
        match r {
            Ok(c) => parse_container(bytes@) == Ok::<ContainerModel, DecodeError>(c@),
            Err(e) => parse_container(bytes@) == Err::<ContainerModel, DecodeError>(e),
        },
{
    if bytes.len() < 8 {
        return Err(DecodeError::TruncatedSection);
    }
    let header = copy_range(bytes, 0, 8);
    let mut sections: Vec<Section> = Vec::new();
    let mut i: usize = 8;
    proof {
        assert(sections@.map_values(|s: Section| s@) =~= Seq::<SectionModel>::empty());
        match parse_sections(bytes@.skip(8)) {
            Ok(tail) => {
                assert(Seq::<SectionModel>::empty() + tail =~= tail);
            },
            Err(_) => {},
        }
    }
    loop
        invariant
            8 <= i <= bytes@.len(),
            header@ == bytes@.subrange(0, 8),
            parse_sections(bytes@.skip(8)) == prepend_sections(
                sections@.map_values(|s: Section| s@),
                parse_sections(bytes@.skip(i as int)),
            ),
        decreases bytes@.len() - i,
    {
        let ghost prefix = sections@.map_values(|s: Section| s@);
        if i >= bytes.len() {
            proof {
                assert(bytes@.skip(i as int).len() == 0);
                assert(parse_sections(bytes@.skip(i as int)) == Ok::<
                    Seq<SectionModel>,
                    DecodeError,
                >(Seq::empty()));
                assert(prefix + Seq::<SectionModel>::empty() =~= prefix);
                assert(bytes@.subrange(0, 8) =~= bytes@.take(8));
            }
            let c = Container { header, sections };
            proof {
                assert(c@.sections =~= prefix);
                assert(parse_sections(bytes@.skip(8)) == Ok::<Seq<SectionModel>, DecodeError>(
                    prefix,
                ));
                assert(c@.header == bytes@.take(8));
                assert(c@ == ContainerModel { header: bytes@.take(8), sections: prefix });
                assert(parse_container(bytes@) == Ok::<ContainerModel, DecodeError>(c@));
            }
            return Ok(c);
        }
        let ghost s = bytes@.skip(i as int);
        let kind = bytes[i];
        proof {
            assert(s[0] == bytes@[i as int]);
            assert(s.skip(1) =~= bytes@.skip(i as int + 1));
        }
        let (v, n) = match decode_varint(bytes, i + 1) {
            Ok(pair) => pair,
            Err(e) => {
                return Err(e);
            },
        };
        let start = i + 1 + n;
        let v_us = v as usize;
        proof {
            assert(s.skip(1).skip(n as int) =~= bytes@.skip(start as int));
        }
        if bytes.len() - start < v_us {
            return Err(DecodeError::TruncatedSection);
        }
        proof {
            assert(bytes@.skip(start as int).take(v as int) =~= bytes@.subrange(
                start as int,
                start as int + v as int,
            ));
            assert(bytes@.skip(start as int).skip(v as int) =~= bytes@.skip(
                start as int + v as int,
            ));
        }
        let sec: Section = if kind == 0 {
            let payload = copy_range(bytes, start, start + v_us);
            match parse_custom(payload.as_slice()) {
                Ok(sec) => sec,
                Err(e) => {
                    return Err(e);
                },
            }
        } else {
            let payload = copy_range(bytes, start, start + v_us);
            Section::Standard { kind, payload }
        };
        i = start + v_us;
        proof {
            let tailr = parse_sections(bytes@.skip(i as int));
            assert(parse_sections(s) == match tailr {
                Err(e) => Err::<Seq<SectionModel>, DecodeError>(e),
                Ok(tail) => Ok::<Seq<SectionModel>, DecodeError>(seq![sec@] + tail),
            });
            assert((sections@.push(sec)).map_values(|x: Section| x@) =~= prefix.push(sec@));
            match tailr {
                Ok(tail) => {
                    assert(prefix + (seq![sec@] + tail) =~= prefix.push(sec@) + tail);
                },
                Err(_) => {},
            }
        }
        sections.push(sec);
    }
}

/// Writes one section after `out`: kind byte, recomputed varint length,
/// payload.  Fails exactly when a length does not fit 32 bits, leaving `out`
/// unchanged.
fn write_section(out: &mut Vec<u8>, s: &Section) -> (r: Result<(), DecodeError>)
    ensures
        match r {
            Ok(_) => section_encodable(s@) && final(out)@ == old(out)@ + section_bytes(s@),
            Err(e) => e == DecodeError::EncodeOverflow && !section_encodable(s@) && final(out)@
                == old(out)@,
        },
{
    match s {
        Section::Standard { kind, payload } => {
            if payload.len() as u64 > 0xFFFF_FFFFu64 {
                return Err(DecodeError::EncodeOverflow);
            }
            out.push(*kind);
            let lv = encode_varint(payload.len() as u32);
            push_bytes(out, lv.as_slice());
            push_bytes(out, payload.as_slice());
            proof {
                assert(final(out)@ =~= old(out)@ + section_bytes(s@));
            }
            Ok(())
        },
        Section::Custom { tag, payload } => {
            proof {
                lemma_varint_encode_len(tag@.len());
            }
            if tag.len() as u64 > 0xFFFF_FFFFu64 {
                return Err(DecodeError::EncodeOverflow);
            }
            if payload.len() as u64 > 0xFFFF_FFFFu64 {
                return Err(DecodeError::EncodeOverflow);
            }
            let tag_lv = encode_varint(tag.len() as u32);
            let total: u64 = tag_lv.len() as u64 + tag.len() as u64 + payload.len() as u64;
            if total > 0xFFFF_FFFFu64 {
                return Err(DecodeError::EncodeOverflow);
            }
            out.push(0);
            let lv = encode_varint(total as u32);
            push_bytes(out, lv.as_slice());
            push_bytes(out, tag_lv.as_slice());
            push_bytes(out, tag.as_slice());
            push_bytes(out, payload.as_slice());
            proof {
                assert(section_payload(s@).len() == total);
                assert(final(out)@ =~= old(out)@ + section_bytes(s@));
            }
            Ok(())
        },
    }
}

/// Reserializes a container: header verbatim, then every section in order
/// with every length field recomputed.  Fails exactly when some recomputed
/// length cannot be represented.
pub fn serialize(c: &Container) -> (r: Result<Vec<u8>, DecodeError>)
    ensures
        match r {
            Ok(out) => container_encodable(c@) && out@ == container_bytes(c@),
            Err(e) => e == DecodeError::EncodeOverflow && !container_encodable(c@),
        },
{
    let ghost ss = c@.sections;
    let mut out: Vec<u8> = Vec::new();
    push_bytes(&mut out, c.header.as_slice());
    let mut j: usize = 0;
    proof {
        assert(sections_bytes(ss.take(0)) =~= Seq::<u8>::empty());
        assert(out@ =~= c@.header + sections_bytes(ss.take(0)));
    }
    while j < c.sections.len()
        invariant
            j <= c.sections@.len(),
            ss == c@.sections,
            ss.len() == c.sections@.len(),
            out@ == c@.header + sections_bytes(ss.take(j as int)),
            forall|i: int| 0 <= i < j ==> section_encodable(#[trigger] ss[i]),
        decreases c.sections@.len() - j,
    {
        proof {
            assert(ss[j as int] == c.sections@[j as int]@);
        }
        match write_section(&mut out, &c.sections[j]) {
            Ok(_) => {},
            Err(e) => {
                proof {
                    assert(!section_encodable(ss[j as int]));
                }
                return Err(e);
            },
        }
        proof {
            lemma_sections_bytes_push(ss.take(j as int), ss[j as int]);
            assert(ss.take(j as int).push(ss[j as int]) =~= ss.take(j as int + 1));
        }
        j = j + 1;
    }
    proof {
        assert(ss.take(ss.len() as int) =~= ss);
    }
    Ok(out)
}

} // verus!
