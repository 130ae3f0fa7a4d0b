//! The domain operation: reading the module name out of a container, and
//! replacing or inserting it.
//!
//! The module name lives in the custom section tagged `"name"`, inside the
//! subsection with id 0, as a varint-length-prefixed byte string.  Absence of
//! the section or of the subsection is a normal state, not an error.  On
//! replacement the subsection keeps its position; on insertion it goes to the
//! front of the naming section, and a missing naming section is appended at
//! the end of the container.

use vstd::prelude::*;
use crate::DecodeError;
use crate::varint::{
    varint_encode, varint_decode, varint_limit, lemma_varint_encode_len,
    encode_varint, decode_varint,
};
use crate::section::{
    Section, Container, SectionModel, ContainerModel, parse_container, container_bytes,
    container_encodable, parse, serialize, copy_range, push_bytes,
};
use crate::namesec::{
    Subsection, SubsectionModel, subsections_bytes, subsections_encodable, subsection_encodable,
    parse_subsections, decode_name_payload, encode_name_payload, lemma_parse_subsections_bounds,
};

verus! {

/// The reserved tag of the naming section: the four bytes of `"name"`.
pub open spec fn name_tag() -> Seq<u8> {
    seq![110u8, 97u8, 109u8, 101u8]
}

/// Whether a section is the naming section.
pub open spec fn is_name_section(s: SectionModel) -> bool {
    match s {
        SectionModel::Custom { tag, .. } => tag == name_tag(),
        SectionModel::Standard { .. } => false,
    }
}

/// A custom section's tag; the empty sequence on other sections.
pub open spec fn custom_tag(s: SectionModel) -> Seq<u8> {
    match s {
        SectionModel::Custom { tag, .. } => tag,
        SectionModel::Standard { .. } => Seq::empty(),
    }
}

/// A custom section's sub-payload; the empty sequence on other sections.
pub open spec fn custom_payload(s: SectionModel) -> Seq<u8> {
    match s {
        SectionModel::Custom { payload, .. } => payload,
        SectionModel::Standard { .. } => Seq::empty(),
    }
}

/// Whether some section of the run is the naming section.
pub open spec fn has_name_section(ss: Seq<SectionModel>) -> bool {
    exists|i: int| 0 <= i < ss.len() && is_name_section(#[trigger] ss[i])
}

/// The position of the first naming section.
pub open spec fn name_section_index(ss: Seq<SectionModel>) -> int
    decreases ss.len(),
{
    if ss.len() == 0 {
        0
    } else if is_name_section(ss[0]) {
        0
    } else {
        1 + name_section_index(ss.skip(1))
    }
}

/// The first naming section's index points at a naming section and nothing
/// before it is one.
pub proof fn lemma_name_section_index(ss: Seq<SectionModel>)
    requires
        has_name_section(ss),
    ensures
        0 <= name_section_index(ss) < ss.len(),
        is_name_section(ss[name_section_index(ss)]),
        forall|i: int| 0 <= i < name_section_index(ss) ==> !is_name_section(#[trigger] ss[i]),
    decreases ss.len(),
{
    if !is_name_section(ss[0]) {
        let w = choose|i: int| 0 <= i < ss.len() && is_name_section(#[trigger] ss[i]);
        assert(ss.skip(1)[w - 1] == ss[w]);
        assert(has_name_section(ss.skip(1)));
        lemma_name_section_index(ss.skip(1));
        let j = name_section_index(ss.skip(1));
        assert(ss[j + 1] == ss.skip(1)[j]);
        assert forall|i: int| 0 <= i < name_section_index(ss) implies !is_name_section(
            #[trigger] ss[i],
        ) by {
            if i >= 1 {
                assert(ss[i] == ss.skip(1)[i - 1]);
                assert(!is_name_section(ss.skip(1)[i - 1]));
            }
        };
    }
}

/// A position that holds a naming section with none before it is the first
/// naming section's index.
pub proof fn lemma_name_section_index_unique(ss: Seq<SectionModel>, j: int)
    requires
        0 <= j < ss.len(),
        is_name_section(ss[j]),
        forall|i: int| 0 <= i < j ==> !is_name_section(#[trigger] ss[i]),
    ensures
        has_name_section(ss),
        name_section_index(ss) == j,
{
    assert(has_name_section(ss));
    lemma_name_section_index(ss);
    let j2 = name_section_index(ss);
    if j2 < j {
        assert(!is_name_section(ss[j2]));
    }
    if j2 > j {
        assert(!is_name_section(ss[j]));
    }
}

/// Whether some subsection of the run carries the module name (id 0).
pub open spec fn has_module_subsection(ss: Seq<SubsectionModel>) -> bool {
    exists|i: int| 0 <= i < ss.len() && (#[trigger] ss[i]).id == 0
}

/// The position of the first module-name subsection.
pub open spec fn module_subsection_index(ss: Seq<SubsectionModel>) -> int
    decreases ss.len(),
{
    if ss.len() == 0 {
        0
    } else if ss[0].id == 0 {
        0
    } else {
        1 + module_subsection_index(ss.skip(1))
    }
}

/// The first module-name subsection's index points at id 0 and nothing
/// before it has id 0.
pub proof fn lemma_module_subsection_index(ss: Seq<SubsectionModel>)
    requires
        has_module_subsection(ss),
    ensures
        0 <= module_subsection_index(ss) < ss.len(),
        ss[module_subsection_index(ss)].id == 0,
        forall|i: int| 0 <= i < module_subsection_index(ss) ==> (#[trigger] ss[i]).id != 0,
    decreases ss.len(),
{
    if ss[0].id != 0 {
        let w = choose|i: int| 0 <= i < ss.len() && (#[trigger] ss[i]).id == 0;
        assert(ss.skip(1)[w - 1] == ss[w]);
        assert(has_module_subsection(ss.skip(1)));
        lemma_module_subsection_index(ss.skip(1));
        let j = module_subsection_index(ss.skip(1));
        assert(ss[j + 1] == ss.skip(1)[j]);
        assert forall|i: int| 0 <= i < module_subsection_index(ss) implies (#[trigger] ss[i]).id
            != 0 by {
            if i >= 1 {
                assert(ss[i] == ss.skip(1)[i - 1]);
                assert((ss.skip(1)[i - 1]).id != 0);
            }
        };
    }
}

/// A position that holds id 0 with none before it is the first module-name
/// subsection's index.
pub proof fn lemma_module_subsection_index_unique(ss: Seq<SubsectionModel>, k: int)
    requires
        0 <= k < ss.len(),
        ss[k].id == 0,
        forall|i: int| 0 <= i < k ==> (#[trigger] ss[i]).id != 0,
    ensures
        has_module_subsection(ss),
        module_subsection_index(ss) == k,
{
    assert(has_module_subsection(ss));
    lemma_module_subsection_index(ss);
    let k2 = module_subsection_index(ss);
    if k2 < k {
        assert((ss[k2]).id != 0);
    }
    if k2 > k {
        assert((ss[k]).id != 0);
    }
}

/// The module-name subsection's payload: the name, length-prefixed by the
/// name's byte length.
pub open spec fn module_name_payload(name: Seq<u8>) -> Seq<u8> {
    varint_encode(name.len()) + name
}

/// The freshly framed module name fits its 32-bit subsection length field.
pub open spec fn module_name_fits(name: Seq<u8>) -> bool {
    module_name_payload(name).len() < varint_limit()
}

/// Reading the name string out of a module-name subsection's payload.
/// Bytes after the string are tolerated and ignored.
pub open spec fn parse_module_name(p: Seq<u8>) -> Result<Seq<u8>, DecodeError> {
    match varint_decode(p) {
        None => Err(DecodeError::MalformedVarint),
        Some((v, n)) => if p.len() - n < v {
            Err(DecodeError::TruncatedSubsection)
        } else {
            Ok(p.skip(n as int).take(v as int))
        },
    }
}

/// A freshly framed module name reads back as the name it frames.
pub proof fn lemma_parse_module_name_roundtrip(name: Seq<u8>)
    requires
        module_name_fits(name),
    ensures
        parse_module_name(module_name_payload(name)) == Ok::<Seq<u8>, DecodeError>(name),
{
    let p = module_name_payload(name);
    let ev = varint_encode(name.len());
    crate::varint::lemma_varint_roundtrip(name.len(), name);
    lemma_varint_encode_len(name.len());
    assert(name.len() < varint_limit());
    assert(p.skip(ev.len() as int) =~= name);
    assert(name.take(name.len() as int) =~= name);
}

/// What reading the module name of a container yields: the name, `None`
/// when the naming section or the id-0 subsection is absent, or the decode
/// error the naming section's framing forces.
pub open spec fn get_module_name_spec(c: ContainerModel) -> Result<
    Option<Seq<u8>>,
    DecodeError,
> {
    if !has_name_section(c.sections) {
        Ok(None)
    } else {
        match parse_subsections(custom_payload(c.sections[name_section_index(c.sections)])) {
            Err(e) => Err(e),
            Ok(subs) => if !has_module_subsection(subs) {
                Ok(None)
            } else {
                match parse_module_name(subs[module_subsection_index(subs)].payload) {
                    Err(e) => Err(e),
                    Ok(nm) => Ok(Some(nm)),
                }
            },
        }
    }
}

/// The naming section's subsections after the module name is set: the id-0
/// subsection replaced in place, or put in front if none was there.
pub open spec fn set_subsections(ss: Seq<SubsectionModel>, name: Seq<u8>) -> Seq<
    SubsectionModel,
> {
    let sub0 = SubsectionModel { id: 0, payload: module_name_payload(name) };
    if has_module_subsection(ss) {
        ss.update(module_subsection_index(ss), sub0)
    } else {
        seq![sub0] + ss
    }
}

/// A naming section holding nothing but the module name `name`.
pub open spec fn fresh_name_section(name: Seq<u8>) -> SectionModel {
    SectionModel::Custom {
        tag: name_tag(),
        payload: subsections_bytes(seq![SubsectionModel { id: 0, payload: module_name_payload(name) }]),
    }
}

/// What setting the module name yields: the same container with the naming
/// section's payload re-encoded around the new name, or with a fresh naming
/// section appended; it fails only when an existing naming section cannot be
/// decoded.
pub open spec fn set_module_name_spec(c: ContainerModel, name: Seq<u8>) -> Result<
    ContainerModel,
    DecodeError,
> {
    if !has_name_section(c.sections) {
        Ok(ContainerModel { header: c.header, sections: c.sections.push(fresh_name_section(name)) })
    } else {
        let j = name_section_index(c.sections);
        match parse_subsections(custom_payload(c.sections[j])) {
            Err(e) => Err(e),
            Ok(subs) => {
                let newsec = SectionModel::Custom {
                    tag: name_tag(),
                    payload: subsections_bytes(set_subsections(subs, name)),
                };
                Ok(ContainerModel { header: c.header, sections: c.sections.update(j, newsec) })
            },
        }
    }
}

/// Whether `tag` is the reserved naming-section tag.
fn is_name_tag(tag: &Vec<u8>) -> (r: bool)
    ensures
        r == (tag@ == name_tag()),
{
    if tag.len() != 4 {
        proof {
            assert(tag@ != name_tag());
        }
        return false;
    }
    let r = tag[0] == 110 && tag[1] == 97 && tag[2] == 109 && tag[3] == 101;
    proof {
        if r {
            assert(tag@ =~= name_tag());
        } else {
            if tag@ == name_tag() {
                assert(tag@[0] == 110 && tag@[1] == 97 && tag@[2] == 109 && tag@[3] == 101);
            }
        }
    }
    r
}

/// Finds the first naming section, if any.
fn find_name_section(sections: &Vec<Section>) -> (r: Option<usize>)
    ensures
        match r {
            Some(j) => {
                let ss = sections@.map_values(|s: Section| s@);
                &&& has_name_section(ss)
                &&& j == name_section_index(ss)
                &&& j < sections@.len()
                &&& is_name_section(ss[j as int])
            },
            None => !has_name_section(sections@.map_values(|s: Section| s@)),
        },
{
    let ghost ss = sections@.map_values(|s: Section| s@);
    let mut j: usize = 0;
    while j < sections.len()
        invariant
            j <= sections@.len(),
            ss == sections@.map_values(|s: Section| s@),
            ss.len() == sections@.len(),
            forall|i: int| 0 <= i < j ==> !is_name_section(#[trigger] ss[i]),
        decreases sections@.len() - j,
    {
        let found = match &sections[j] {
            Section::Custom { tag, .. } => is_name_tag(tag),
            Section::Standard { .. } => false,
        };
        proof {
            assert(ss[j as int] == sections@[j as int]@);
        }
        if found {
            proof {
                assert(is_name_section(ss[j as int]));
                assert(has_name_section(ss));
                lemma_name_section_index(ss);
                let j2 = name_section_index(ss);
                if j2 < j {
                    assert(!is_name_section(ss[j2]));
                }
                if j2 > j {
                    assert(!is_name_section(ss[j as int]));
                }
            }
            return Some(j);
        }
        proof {
            assert(!is_name_section(ss[j as int]));
        }
        j = j + 1;
    }
    proof {
        if has_name_section(ss) {
            let w = choose|i: int| 0 <= i < ss.len() && is_name_section(#[trigger] ss[i]);
            assert(!is_name_section(ss[w]));
        }
    }
    None
}

/// Finds the first module-name subsection, if any.
fn find_module_subsection(subs: &Vec<Subsection>) -> (r: Option<usize>)
    ensures
        match r {
            Some(k) => {
                let ss = subs@.map_values(|s: Subsection| s@);
                &&& has_module_subsection(ss)
                &&& k == module_subsection_index(ss)
                &&& k < subs@.len()
                &&& (ss[k as int]).id == 0
            },
            None => !has_module_subsection(subs@.map_values(|s: Subsection| s@)),
        },
{
    let ghost ss = subs@.map_values(|s: Subsection| s@);
    let mut k: usize = 0;
    while k < subs.len()
        invariant
            k <= subs@.len(),
            ss == subs@.map_values(|s: Subsection| s@),
            ss.len() == subs@.len(),
            forall|i: int| 0 <= i < k ==> (#[trigger] ss[i]).id != 0,
        decreases subs@.len() - k,
    {
        proof {
            assert(ss[k as int] == subs@[k as int]@);
        }
        if subs[k].id == 0 {
            proof {
                assert(has_module_subsection(ss));
                lemma_module_subsection_index(ss);
                let k2 = module_subsection_index(ss);
                if k2 < k {
                    assert((ss[k2]).id != 0);
                }
                if k2 > k {
                    assert((ss[k as int]).id != 0);
                }
            }
            return Some(k);
        }
        k = k + 1;
    }
    proof {
        if has_module_subsection(ss) {
            let w = choose|i: int| 0 <= i < ss.len() && (#[trigger] ss[i]).id == 0;
            assert((ss[w]).id != 0);
        }
    }
    None
}

/// Reads the current module name of a parsed container, `None` when the
/// naming section or its module-name subsection is absent.
pub fn get_module_name(c: &Container) -> (r: Result<Option<Vec<u8>>, DecodeError>)
    ensures
        match r {
            Ok(Some(v)) => get_module_name_spec(c@) == Ok::<Option<Seq<u8>>, DecodeError>(
                Some(v@),
            ),
            Ok(None) => get_module_name_spec(c@) == Ok::<Option<Seq<u8>>, DecodeError>(None),
            Err(e) => get_module_name_spec(c@) == Err::<Option<Seq<u8>>, DecodeError>(e),
        },
{
    let j = match find_name_section(&c.sections) {
        None => {
            return Ok(None);
        },
        Some(j) => j,
    };
    proof {
        assert(c@.sections[j as int] == c.sections@[j as int]@);
    }
    match &c.sections[j] {
        Section::Standard { .. } => vstd::pervasive::unreached(),
        Section::Custom { payload, .. } => {
            proof {
                assert(custom_payload(c@.sections[j as int]) == payload@);
            }
            let subs = match decode_name_payload(payload.as_slice()) {
                Ok(s) => s,
                Err(e) => {
                    return Err(e);
                },
            };
            let k = match find_module_subsection(&subs) {
                None => {
                    return Ok(None);
                },
                Some(k) => k,
            };
            let ghost subs_model = subs@.map_values(|s: Subsection| s@);
            proof {
                assert(subs_model[k as int] == subs@[k as int]@);
            }
            let sp = &subs[k].payload;
            proof {
                assert(sp@.skip(0) =~= sp@);
            }
            let (v, n) = match decode_varint(sp.as_slice(), 0) {
                Ok(p) => p,
                Err(e) => {
                    return Err(e);
                },
            };
            if sp.len() - n < v as usize {
                return Err(DecodeError::TruncatedSubsection);
            }
            let namev = copy_range(sp.as_slice(), n, n + v as usize);
            proof {
                assert(sp@.skip(n as int).take(v as int) =~= sp@.subrange(
                    n as int,
                    n as int + v as int,
                ));
                assert(parse_module_name(subs_model[k as int].payload) == Ok::<Seq<u8>, DecodeError>(
                    namev@,
                ));
                assert(get_module_name_spec(c@) == Ok::<Option<Seq<u8>>, DecodeError>(
                    Some(namev@),
                ));
            }
            Ok(Some(namev))
        },
    }
}

/// Builds the module-name subsection's payload for `name`; fails exactly
/// when it would not fit its 32-bit length field.
fn build_name_payload(name: &[u8]) -> (r: Result<Vec<u8>, DecodeError>)
    ensures
        match r {
            Ok(p) => module_name_fits(name@) && p@ == module_name_payload(name@),
            Err(e) => e == DecodeError::EncodeOverflow && !module_name_fits(name@),
        },
{
    proof {
        lemma_varint_encode_len(name@.len());
    }
    if name.len() as u64 > 0xFFFF_FFFFu64 {
        return Err(DecodeError::EncodeOverflow);
    }
    let lv = encode_varint(name.len() as u32);
    if lv.len() as u64 + name.len() as u64 >= 0x1_0000_0000u64 {
        return Err(DecodeError::EncodeOverflow);
    }
    let mut p: Vec<u8> = Vec::new();
    push_bytes(&mut p, lv.as_slice());
    push_bytes(&mut p, name);
    Ok(p)
}

/// The four tag bytes of the naming section.
fn make_name_tag() -> (r: Vec<u8>)
    ensures
        r@ == name_tag(),
{
    let mut tag: Vec<u8> = Vec::new();
    tag.push(110);
    tag.push(97);
    tag.push(109);
    tag.push(101);
    proof {
        assert(tag@ =~= name_tag());
    }
    tag
}

/// Sets the module name of a parsed container: replaces the id-0 subsection
/// of the naming section, or creates what is missing.  Fails on a naming
/// section that cannot be decoded, or with `EncodeOverflow` exactly when the
/// freshly framed name would not fit its length field.
pub fn set_module_name(c: Container, name: &[u8]) -> (r: Result<Container, DecodeError>)
    ensures
        match r {
            Ok(rc) => module_name_fits(name@) && set_module_name_spec(c@, name@) == Ok::<
                ContainerModel,
                DecodeError,
            >(rc@),
            Err(e) => set_module_name_spec(c@, name@) == Err::<ContainerModel, DecodeError>(e)
                || (e == DecodeError::EncodeOverflow && !module_name_fits(name@)
                && set_module_name_spec(c@, name@) is Ok),
        },
{
    let ghost old_sections = c@.sections;
    let Container { header, mut sections } = c;
    let jopt = find_name_section(&sections);
    match jopt {
        None => {
            let sub0_payload = match build_name_payload(name) {
                Ok(p) => p,
                Err(e) => {
                    return Err(e);
                },
            };
            let mut subs: Vec<Subsection> = Vec::new();
            subs.push(Subsection { id: 0, payload: sub0_payload });
            let ghost sub0 = SubsectionModel { id: 0, payload: module_name_payload(name@) };
            proof {
                assert(subs@.map_values(|s: Subsection| s@) =~= seq![sub0]);
                assert(subsections_encodable(seq![sub0])) by {
                    assert(seq![sub0][0] == sub0);
                };
            }
            let payload = match encode_name_payload(&subs) {
                Ok(p) => p,
                Err(_) => vstd::pervasive::unreached(),
            };
            let tag = make_name_tag();
            let newsec = Section::Custom { tag, payload };
            proof {
                assert(newsec@ == SectionModel::Custom {
                    tag: name_tag(),
                    payload: subsections_bytes(seq![sub0]),
                });
            }
            sections.push(newsec);
            let rc = Container { header, sections };
            proof {
                assert(rc@.sections =~= old_sections.push(
                    SectionModel::Custom { tag: name_tag(), payload: subsections_bytes(seq![sub0]) },
                ));
            }
            Ok(rc)
        },
        Some(j) => {
            let ghost jm = j as int;
            proof {
                assert(old_sections[jm] == sections@[jm]@);
            }
            let subs_r = match &sections[j] {
                Section::Standard { .. } => vstd::pervasive::unreached(),
                Section::Custom { payload, .. } => {
                    proof {
                        assert(custom_payload(old_sections[jm]) == payload@);
                    }
                    decode_name_payload(payload.as_slice())
                },
            };
            let mut subs = match subs_r {
                Ok(s) => s,
                Err(e) => {
                    return Err(e);
                },
            };
            let ghost subs0 = subs@.map_values(|s: Subsection| s@);
            proof {
                lemma_parse_subsections_bounds(custom_payload(old_sections[jm]));
            }
            sections.remove(j);
            let kopt = find_module_subsection(&subs);
            let sub0_payload = match build_name_payload(name) {
                Ok(p) => p,
                Err(e) => {
                    return Err(e);
                },
            };
            let sub0 = Subsection { id: 0, payload: sub0_payload };
            let ghost sub0m = SubsectionModel { id: 0, payload: module_name_payload(name@) };
            match kopt {
                Some(k) => {
                    subs.remove(k);
                    subs.insert(k, sub0);
                    proof {
                        assert(subs@.map_values(|s: Subsection| s@) =~= subs0.update(
                            k as int,
                            sub0m,
                        ));
                    }
                },
                None => {
                    subs.insert(0, sub0);
                    proof {
                        assert(subs@.map_values(|s: Subsection| s@) =~= seq![sub0m] + subs0);
                    }
                },
            }
            let ghost subs1 = set_subsections(subs0, name@);
            proof {
                assert(subs@.map_values(|s: Subsection| s@) == subs1);
                assert(subsections_encodable(subs1)) by {
                    assert(forall|i: int|
                        0 <= i < subs1.len() && subs1[i] != sub0m ==> subsection_encodable(
                            #[trigger] subs1[i],
                        )) by {
                        assert(forall|i: int|
                            0 <= i < subs1.len() && subs1[i] != sub0m ==> exists|i2: int|
                                0 <= i2 < subs0.len() && subs0[i2] == #[trigger] subs1[i]);
                    };
                };
            }
            let payload = match encode_name_payload(&subs) {
                Ok(p) => p,
                Err(_) => vstd::pervasive::unreached(),
            };
            let tag = make_name_tag();
            let newsec = Section::Custom { tag, payload };
            sections.insert(j, newsec);
            let rc = Container { header, sections };
            proof {
                assert(rc@.sections =~= old_sections.update(
                    jm,
                    SectionModel::Custom { tag: name_tag(), payload: subsections_bytes(subs1) },
                ));
            }
            Ok(rc)
        },
    }
}

/// What reading the module name straight from container bytes yields.
pub open spec fn get_module_name_bytes_spec(b: Seq<u8>) -> Result<Option<Seq<u8>>, DecodeError> {
    match parse_container(b) {
        Err(e) => Err(e),
        Ok(c) => get_module_name_spec(c),
    }
}

/// What setting the module name straight on container bytes yields: parse,
/// set, reserialize; `EncodeOverflow` exactly when a recomputed length field
/// cannot be represented.
pub open spec fn set_module_name_bytes_spec(b: Seq<u8>, name: Seq<u8>) -> Result<
    Seq<u8>,
    DecodeError,
> {
    match parse_container(b) {
        Err(e) => Err(e),
        Ok(c) => match set_module_name_spec(c, name) {
            Err(e) => Err(e),
            Ok(m) => if module_name_fits(name) && container_encodable(m) {
                Ok(container_bytes(m))
            } else {
                Err(DecodeError::EncodeOverflow)
            },
        },
    }
}

/// Reads the module name out of raw container bytes.
pub fn get_module_name_bytes(bytes: &[u8]) -> (r: Result<Option<Vec<u8>>, DecodeError>)
    ensures
        match r {
            Ok(Some(v)) => get_module_name_bytes_spec(bytes@) == Ok::<Option<Seq<u8>>, DecodeError>(
                Some(v@),
            ),
            Ok(None) => get_module_name_bytes_spec(bytes@) == Ok::<Option<Seq<u8>>, DecodeError>(
                None,
            ),
            Err(e) => get_module_name_bytes_spec(bytes@) == Err::<Option<Seq<u8>>, DecodeError>(e),
        },
{
    let c = match parse(bytes) {
        Ok(c) => c,
        Err(e) => {
            return Err(e);
        },
    };
    get_module_name(&c)
}

/// Rewrites raw container bytes so they carry `name` as the module name;
/// every untouched section round-trips byte-identically.
pub fn set_module_name_bytes(bytes: &[u8], name: &[u8]) -> (r: Result<Vec<u8>, DecodeError>)
    ensures
        match r {
            Ok(out) => set_module_name_bytes_spec(bytes@, name@) == Ok::<Seq<u8>, DecodeError>(
                out@,
            ),
            Err(e) => set_module_name_bytes_spec(bytes@, name@) == Err::<Seq<u8>, DecodeError>(e),
        },
{
    let c = match parse(bytes) {
        Ok(c) => c,
        Err(e) => {
            return Err(e);
        },
    };
    let m = match set_module_name(c, name) {
        Ok(m) => m,
        Err(e) => {
            return Err(e);
        },
    };
    serialize(&m)
}

} // verus!
