//! The naming section's own framing: an ordered run of subsections, each
//! one byte of id, a varint length, and that many payload bytes.
//!
//! Subsection id 0 carries the module name; other ids are preserved as
//! opaque payloads.  On encode the stored order is kept as it is.

use vstd::prelude::*;
use crate::DecodeError;
use crate::varint::{
    varint_encode, varint_decode, varint_limit, lemma_varint_roundtrip, lemma_raw_varint_consumes,
    encode_varint, decode_varint,
};
use crate::section::{copy_range, push_bytes};

verus! {

/// Mathematical shape of one naming subsection.
#[verifier::ext_equal]
pub struct SubsectionModel {
    pub id: u8,
    pub payload: Seq<u8>,
}

/// One framed subsection within the naming section.
pub struct Subsection {
    pub id: u8,
    pub payload: Vec<u8>,
}

impl View for Subsection {
    type V = SubsectionModel;

    open spec fn view(&self) -> SubsectionModel {
        SubsectionModel { id: self.id, payload: self.payload@ }
    }
}

/// The wire form of one subsection: id, varint payload length, payload.
pub open spec fn subsection_bytes(s: SubsectionModel) -> Seq<u8> {
    seq![s.id] + varint_encode(s.payload.len()) + s.payload
}

/// A subsection's payload length must fit the 32-bit length field.
pub open spec fn subsection_encodable(s: SubsectionModel) -> bool {
    s.payload.len() < varint_limit()
}

/// Every subsection of the run fits its length field.
pub open spec fn subsections_encodable(ss: Seq<SubsectionModel>) -> bool {
    forall|i: int| 0 <= i < ss.len() ==> subsection_encodable(#[trigger] ss[i])
}

/// The wire form of a run of subsections, in order.
pub open spec fn subsections_bytes(ss: Seq<SubsectionModel>) -> Seq<u8>
    decreases ss.len(),
{
    if ss.len() == 0 {
        Seq::empty()
    } else {
        subsection_bytes(ss[0]) + subsections_bytes(ss.skip(1))
    }
}

/// Appending a subsection extends the wire form on the right.
pub proof fn lemma_subsections_bytes_push(ss: Seq<SubsectionModel>, x: SubsectionModel)
    ensures
        subsections_bytes(ss.push(x)) == subsections_bytes(ss) + subsection_bytes(x),
    decreases ss.len(),
{
    if ss.len() == 0 {
        assert(ss.push(x)[0] == x);
        assert(ss.push(x).skip(1) =~= Seq::<SubsectionModel>::empty());
        assert(subsections_bytes(ss.push(x)) == subsection_bytes(x) + subsections_bytes(
            Seq::<SubsectionModel>::empty(),
        ));
        assert(subsections_bytes(Seq::<SubsectionModel>::empty()) == Seq::<u8>::empty());
        assert(subsections_bytes(ss) == Seq::<u8>::empty());
        assert(subsections_bytes(ss.push(x)) =~= subsections_bytes(ss) + subsection_bytes(x));
    } else {
        assert(ss.push(x).skip(1) =~= ss.skip(1).push(x));
        lemma_subsections_bytes_push(ss.skip(1), x);
        assert(ss.push(x)[0] == ss[0]);
        assert(subsections_bytes(ss.push(x)) == subsection_bytes(ss[0]) + (subsections_bytes(
            ss.skip(1),
        ) + subsection_bytes(x)));
        assert(subsection_bytes(ss[0]) + (subsections_bytes(ss.skip(1)) + subsection_bytes(x))
            =~= (subsection_bytes(ss[0]) + subsections_bytes(ss.skip(1))) + subsection_bytes(x));
    }
}

/// Reading a run of subsections from the front of `s` until it is exhausted.
pub open spec fn parse_subsections(s: Seq<u8>) -> Result<Seq<SubsectionModel>, DecodeError>
    decreases s.len(),
    via parse_subsections_decreases
{
    if s.len() == 0 {
        Ok(Seq::empty())
    } else {
        match varint_decode(s.skip(1)) {
            None => Err(DecodeError::MalformedVarint),
            Some((v, n)) => {
                let after = s.skip(1).skip(n as int);
                if after.len() < v {
                    Err(DecodeError::TruncatedSubsection)
                } else {
                    match parse_subsections(after.skip(v as int)) {
                        Err(e) => Err(e),
                        Ok(tail) => Ok(
                            seq![SubsectionModel { id: s[0], payload: after.take(v as int) }]
                                + tail,
                        ),
                    }
                }
            },
        }
    }
}

#[via_fn]
proof fn parse_subsections_decreases(s: Seq<u8>) {
    if s.len() != 0 {
        lemma_raw_varint_consumes(s.skip(1));
    }
}

/// A decoded run's payloads all fit their length fields: each came from a
/// 32-bit length field.
pub proof fn lemma_parse_subsections_bounds(s: Seq<u8>)
    ensures
        parse_subsections(s) matches Ok(ss) ==> subsections_encodable(ss),
    decreases s.len(),
{
    if s.len() != 0 {
        lemma_raw_varint_consumes(s.skip(1));
        match varint_decode(s.skip(1)) {
            Some((v, n)) => {
                let after = s.skip(1).skip(n as int);
                if after.len() >= v {
                    lemma_parse_subsections_bounds(after.skip(v as int));
                    match parse_subsections(after.skip(v as int)) {
                        Ok(tail) => {
                            let head = SubsectionModel { id: s[0], payload: after.take(v as int) };
                            assert(head.payload.len() == v);
                            assert(forall|i: int|
                                0 <= i < tail.len() ==> (seq![head] + tail)[i + 1] == #[trigger]
                                tail[i]);
                            assert(subsections_encodable(seq![head] + tail));
                        },
                        Err(_) => {},
                    }
                }
            },
            None => {},
        }
    }
}

/// Decoding undoes encoding: an encodable run of subsections reads back as
/// itself.
pub proof fn lemma_parse_subsections_roundtrip(ss: Seq<SubsectionModel>)
    requires
        subsections_encodable(ss),
    ensures
        parse_subsections(subsections_bytes(ss)) == Ok::<Seq<SubsectionModel>, DecodeError>(ss),
    decreases ss.len(),
{
    if ss.len() == 0 {
        assert(subsections_bytes(ss) == Seq::<u8>::empty());
        assert(parse_subsections(subsections_bytes(ss)) == Ok::<Seq<SubsectionModel>, DecodeError>(
            Seq::empty(),
        ));
        assert(ss =~= Seq::<SubsectionModel>::empty());
    } else {
        let head = ss[0];
        let pl = head.payload;
        let rest_bytes = subsections_bytes(ss.skip(1));
        let b = subsections_bytes(ss);
        let ev = varint_encode(pl.len());
        lemma_varint_roundtrip(pl.len(), pl + rest_bytes);
        assert(head.payload.len() < varint_limit());
        assert(b == subsection_bytes(head) + rest_bytes);
        assert(b[0] == head.id);
        assert(b.skip(1) =~= ev + (pl + rest_bytes));
        assert(varint_decode(b.skip(1)) == Some((pl.len(), ev.len() as nat)));
        let after = b.skip(1).skip(ev.len() as int);
        assert(after =~= pl + rest_bytes);
        assert(after.len() >= pl.len());
        assert(after.take(pl.len() as int) =~= pl);
        assert(after.skip(pl.len() as int) =~= rest_bytes);
        assert(forall|i: int| 0 <= i < ss.skip(1).len() ==> #[trigger] ss.skip(1)[i] == ss[i + 1]);
        lemma_parse_subsections_roundtrip(ss.skip(1));
        assert(parse_subsections(rest_bytes) == Ok::<Seq<SubsectionModel>, DecodeError>(
            ss.skip(1),
        ));
        assert(head =~= SubsectionModel { id: head.id, payload: pl });
        assert(seq![head] + ss.skip(1) =~= ss);
        assert(parse_subsections(b) == Ok::<Seq<SubsectionModel>, DecodeError>(ss));
    }
}

/// A parse result with already-read subsections put back in front of it.
pub open spec fn prepend_subsections(
    prefix: Seq<SubsectionModel>,
    r: Result<Seq<SubsectionModel>, DecodeError>,
) -> Result<Seq<SubsectionModel>, DecodeError> {
    match r {
        Ok(tail) => Ok(prefix + tail),
        Err(e) => Err(e),
    }
}

/// Splits a naming section's payload into its subsections.  Succeeds exactly
/// on well-formed payloads.
pub fn decode_name_payload(p: &[u8]) -> (r: Result<Vec<Subsection>, DecodeError>)
    ensures
        match r {
            Ok(subs) => parse_subsections(p@) == Ok::<Seq<SubsectionModel>, DecodeError>(
                subs@.map_values(|s: Subsection| s@),
            ),
            Err(e) => parse_subsections(p@) == Err::<Seq<SubsectionModel>, DecodeError>(e),
        },
{
    let mut subs: Vec<Subsection> = Vec::new();
    let mut i: usize = 0;
    proof {
        assert(subs@.map_values(|s: Subsection| s@) =~= Seq::<SubsectionModel>::empty());
        assert(p@.skip(0) =~= p@);
        match parse_subsections(p@) {
            Ok(tail) => {
                assert(Seq::<SubsectionModel>::empty() + tail =~= tail);
            },
            Err(_) => {},
        }
    }
    loop
        invariant
            i <= p@.len(),
            parse_subsections(p@) == prepend_subsections(
                subs@.map_values(|s: Subsection| s@),
                parse_subsections(p@.skip(i as int)),
            ),
        decreases p@.len() - i,
    {
        let ghost prefix = subs@.map_values(|s: Subsection| s@);
        if i >= p.len() {
            proof {
                assert(p@.skip(i as int).len() == 0);
                assert(parse_subsections(p@.skip(i as int)) == Ok::<
                    Seq<SubsectionModel>,
                    DecodeError,
                >(Seq::empty()));
                assert(prefix + Seq::<SubsectionModel>::empty() =~= prefix);
            }
            return Ok(subs);
        }
        let ghost s = p@.skip(i as int);
        let id = p[i];
        proof {
            assert(s[0] == p@[i as int]);
            assert(s.skip(1) =~= p@.skip(i as int + 1));
        }
        let (v, n) = match decode_varint(p, i + 1) {
            Ok(pair) => pair,
            Err(e) => {
                return Err(e);
            },
        };
        let start = i + 1 + n;
        let v_us = v as usize;
        proof {
            assert(s.skip(1).skip(n as int) =~= p@.skip(start as int));
        }
        if p.len() - start < v_us {
            return Err(DecodeError::TruncatedSubsection);
        }
        proof {
            assert(p@.skip(start as int).take(v as int) =~= p@.subrange(
                start as int,
                start as int + v as int,
            ));
            assert(p@.skip(start as int).skip(v as int) =~= p@.skip(start as int + v as int));
        }
        let payload = copy_range(p, start, start + v_us);
        let sub = Subsection { id, payload };
        i = start + v_us;
        proof {
            let tailr = parse_subsections(p@.skip(i as int));
            assert(parse_subsections(s) == match tailr {
                Err(e) => Err::<Seq<SubsectionModel>, DecodeError>(e),
                Ok(tail) => Ok::<Seq<SubsectionModel>, DecodeError>(seq![sub@] + tail),
            });
            assert((subs@.push(sub)).map_values(|x: Subsection| x@) =~= prefix.push(sub@));
            match tailr {
                Ok(tail) => {
                    assert(prefix + (seq![sub@] + tail) =~= prefix.push(sub@) + tail);
                },
                Err(_) => {},
            }
        }
        subs.push(sub);
    }
}

/// Writes a run of subsections back to bytes, every length field recomputed
/// from its payload.  Fails exactly when some payload outgrows its 32-bit
/// length field.
pub fn encode_name_payload(subs: &Vec<Subsection>) -> (r: Result<Vec<u8>, DecodeError>)
    ensures
        match r {
            Ok(out) => subsections_encodable(subs@.map_values(|s: Subsection| s@)) && out@
                == subsections_bytes(subs@.map_values(|s: Subsection| s@)),
            Err(e) => e == DecodeError::EncodeOverflow && !subsections_encodable(
                subs@.map_values(|s: Subsection| s@),
            ),
        },
{
    let ghost ss = subs@.map_values(|s: Subsection| s@);
    let mut out: Vec<u8> = Vec::new();
    let mut j: usize = 0;
    proof {
        assert(subsections_bytes(ss.take(0)) =~= Seq::<u8>::empty());
        assert(out@ =~= subsections_bytes(ss.take(0)));
    }
    while j < subs.len()
        invariant
            j <= subs@.len(),
            ss == subs@.map_values(|s: Subsection| s@),
            ss.len() == subs@.len(),
            out@ == subsections_bytes(ss.take(j as int)),
            forall|i: int| 0 <= i < j ==> subsection_encodable(#[trigger] ss[i]),
        decreases subs@.len() - j,
    {
        let sub = &subs[j];
        proof {
            assert(ss[j as int] == subs@[j as int]@);
        }
        if sub.payload.len() as u64 > 0xFFFF_FFFFu64 {
            proof {
                assert(!subsection_encodable(ss[j as int]));
            }
            return Err(DecodeError::EncodeOverflow);
        }
        out.push(sub.id);
        let lv = encode_varint(sub.payload.len() as u32);
        push_bytes(&mut out, lv.as_slice());
        push_bytes(&mut out, sub.payload.as_slice());
        proof {
            lemma_subsections_bytes_push(ss.take(j as int), ss[j as int]);
            assert(ss.take(j as int).push(ss[j as int]) =~= ss.take(j as int + 1));
            assert(out@ =~= subsections_bytes(ss.take(j as int + 1)));
        }
        j = j + 1;
    }
    proof {
        assert(ss.take(ss.len() as int) =~= ss);
    }
    Ok(out)
}

} // verus!
