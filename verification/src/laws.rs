//! The library's governing properties, proved once and for all over the
//! specification functions that the executable contracts are stated against.

use vstd::prelude::*;
use crate::DecodeError;
use crate::section::{SectionModel, ContainerModel};
use crate::namesec::{
    SubsectionModel, subsections_bytes, subsections_encodable, subsection_encodable,
    parse_subsections, lemma_parse_subsections_roundtrip, lemma_parse_subsections_bounds,
};
use crate::modname::{
    name_tag, is_name_section, custom_payload, has_name_section, name_section_index,
    lemma_name_section_index, lemma_name_section_index_unique, has_module_subsection,
    module_subsection_index, lemma_module_subsection_index, lemma_module_subsection_index_unique,
    module_name_payload, module_name_fits, parse_module_name, lemma_parse_module_name_roundtrip,
    get_module_name_spec, set_subsections, fresh_name_section, set_module_name_spec,
};

verus! {

/// Setting the module name into a run of subsections puts the freshly framed
/// name at the first id-0 slot (in place, or at the front), keeps the run
/// encodable, and the run reads back as itself.  Setting the same name again
/// changes nothing.
pub proof fn lemma_set_subsections(ss: Seq<SubsectionModel>, name: Seq<u8>)
    requires
        subsections_encodable(ss),
        module_name_fits(name),
    ensures
        ({
            let sub0 = SubsectionModel { id: 0, payload: module_name_payload(name) };
            let ss1 = set_subsections(ss, name);
            &&& subsections_encodable(ss1)
            &&& has_module_subsection(ss1)
            &&& module_subsection_index(ss1) == (if has_module_subsection(ss) {
                module_subsection_index(ss)
            } else {
                0
            })
            &&& ss1[module_subsection_index(ss1)] == sub0
            &&& parse_subsections(subsections_bytes(ss1)) == Ok::<Seq<SubsectionModel>, DecodeError>(
                ss1,
            )
            &&& set_subsections(ss1, name) == ss1
        }),
{
    let sub0 = SubsectionModel { id: 0, payload: module_name_payload(name) };
    let ss1 = set_subsections(ss, name);
    assert(subsection_encodable(sub0));
    if has_module_subsection(ss) {
        lemma_module_subsection_index(ss);
        let k = module_subsection_index(ss);
        assert(ss1 == ss.update(k, sub0));
        assert(ss1[k] == sub0);
        assert forall|i: int| 0 <= i < k implies (#[trigger] ss1[i]).id != 0 by {
            assert(ss1[i] == ss[i]);
        };
        lemma_module_subsection_index_unique(ss1, k);
        assert forall|i: int| 0 <= i < ss1.len() implies subsection_encodable(
            #[trigger] ss1[i],
        ) by {
            if i != k {
                assert(ss1[i] == ss[i]);
                assert(subsection_encodable(ss[i]));
            }
        };
    } else {
        assert(ss1 == seq![sub0] + ss);
        assert(ss1[0] == sub0);
        lemma_module_subsection_index_unique(ss1, 0);
        assert forall|i: int| 0 <= i < ss1.len() implies subsection_encodable(
            #[trigger] ss1[i],
        ) by {
            if i >= 1 {
                assert(ss1[i] == ss[i - 1]);
                assert(subsection_encodable(ss[i - 1]));
            }
        };
    }
    lemma_parse_subsections_roundtrip(ss1);
    let k1 = module_subsection_index(ss1);
    assert(set_subsections(ss1, name) == ss1.update(k1, sub0));
    assert(ss1.update(k1, sub0) =~= ss1);
}

/// Round trip: after setting the module name, reading it gives back exactly
/// the name that was set.
pub proof fn lemma_get_after_set(c: ContainerModel, name: Seq<u8>, m: ContainerModel)
    requires
        module_name_fits(name),
        set_module_name_spec(c, name) == Ok::<ContainerModel, DecodeError>(m),
    ensures
        get_module_name_spec(m) == Ok::<Option<Seq<u8>>, DecodeError>(Some(name)),
{
    let sub0 = SubsectionModel { id: 0, payload: module_name_payload(name) };
    lemma_parse_module_name_roundtrip(name);
    if !has_name_section(c.sections) {
        let subs1 = seq![sub0];
        let newsec = fresh_name_section(name);
        let n = c.sections.len() as int;
        assert(m.sections == c.sections.push(newsec));
        assert(m.sections[n] == newsec);
        assert(is_name_section(newsec));
        assert forall|i: int| 0 <= i < n implies !is_name_section(#[trigger] m.sections[i]) by {
            assert(m.sections[i] == c.sections[i]);
            if is_name_section(c.sections[i]) {
                assert(has_name_section(c.sections));
            }
        };
        lemma_name_section_index_unique(m.sections, n);
        assert(subsections_encodable(subs1)) by {
            assert forall|i: int| 0 <= i < subs1.len() implies subsection_encodable(
                #[trigger] subs1[i],
            ) by {
                assert(subs1[i] == sub0);
            };
        };
        lemma_parse_subsections_roundtrip(subs1);
        assert(custom_payload(newsec) == subsections_bytes(subs1));
        assert(subs1[0].id == 0);
        lemma_module_subsection_index_unique(subs1, 0);
        assert(get_module_name_spec(m) == Ok::<Option<Seq<u8>>, DecodeError>(Some(name)));
    } else {
        lemma_name_section_index(c.sections);
        let j = name_section_index(c.sections);
        match parse_subsections(custom_payload(c.sections[j])) {
            Ok(subs) => {
                lemma_parse_subsections_bounds(custom_payload(c.sections[j]));
                lemma_set_subsections(subs, name);
                let subs1 = set_subsections(subs, name);
                let newsec = SectionModel::Custom {
                    tag: name_tag(),
                    payload: subsections_bytes(subs1),
                };
                assert(m.sections == c.sections.update(j, newsec));
                assert(m.sections[j] == newsec);
                assert(is_name_section(newsec));
                assert forall|i: int| 0 <= i < j implies !is_name_section(
                    #[trigger] m.sections[i],
                ) by {
                    assert(m.sections[i] == c.sections[i]);
                };
                lemma_name_section_index_unique(m.sections, j);
                assert(custom_payload(newsec) == subsections_bytes(subs1));
                assert(get_module_name_spec(m) == Ok::<Option<Seq<u8>>, DecodeError>(Some(name)));
            },
            Err(_) => {
                assert(false);
            },
        }
    }
}

/// Idempotence: setting the same module name a second time yields the very
/// same container, so the reserialized bytes are equal as well.
pub proof fn lemma_set_idempotent(c: ContainerModel, name: Seq<u8>, m1: ContainerModel)
    requires
        module_name_fits(name),
        set_module_name_spec(c, name) == Ok::<ContainerModel, DecodeError>(m1),
    ensures
        set_module_name_spec(m1, name) == Ok::<ContainerModel, DecodeError>(m1),
{
    let sub0 = SubsectionModel { id: 0, payload: module_name_payload(name) };
    if !has_name_section(c.sections) {
        let subs1 = seq![sub0];
        let newsec = fresh_name_section(name);
        let n = c.sections.len() as int;
        assert(m1.sections == c.sections.push(newsec));
        assert(m1.sections[n] == newsec);
        assert forall|i: int| 0 <= i < n implies !is_name_section(#[trigger] m1.sections[i]) by {
            assert(m1.sections[i] == c.sections[i]);
            if is_name_section(c.sections[i]) {
                assert(has_name_section(c.sections));
            }
        };
        lemma_name_section_index_unique(m1.sections, n);
        assert(subsections_encodable(subs1)) by {
            assert forall|i: int| 0 <= i < subs1.len() implies subsection_encodable(
                #[trigger] subs1[i],
            ) by {
                assert(subs1[i] == sub0);
            };
        };
        lemma_parse_subsections_roundtrip(subs1);
        assert(custom_payload(m1.sections[n]) == subsections_bytes(subs1));
        lemma_set_subsections(subs1, name);
        assert(set_subsections(subs1, name) == subs1);
        let newsec2 = SectionModel::Custom {
            tag: name_tag(),
            payload: subsections_bytes(set_subsections(subs1, name)),
        };
        assert(newsec2 == newsec);
        assert(m1.sections.update(n, newsec2) =~= m1.sections);
        assert(ContainerModel { header: m1.header, sections: m1.sections.update(n, newsec2) }
            =~= m1);
    } else {
        lemma_name_section_index(c.sections);
        let j = name_section_index(c.sections);
        match parse_subsections(custom_payload(c.sections[j])) {
            Ok(subs) => {
                lemma_parse_subsections_bounds(custom_payload(c.sections[j]));
                lemma_set_subsections(subs, name);
                let subs1 = set_subsections(subs, name);
                let newsec = SectionModel::Custom {
                    tag: name_tag(),
                    payload: subsections_bytes(subs1),
                };
                assert(m1.sections == c.sections.update(j, newsec));
                assert(m1.sections[j] == newsec);
                assert forall|i: int| 0 <= i < j implies !is_name_section(
                    #[trigger] m1.sections[i],
                ) by {
                    assert(m1.sections[i] == c.sections[i]);
                };
                lemma_name_section_index_unique(m1.sections, j);
                lemma_set_subsections(subs1, name);
                assert(set_subsections(subs1, name) == subs1);
                let newsec2 = SectionModel::Custom {
                    tag: name_tag(),
                    payload: subsections_bytes(set_subsections(subs1, name)),
                };
                assert(newsec2 == newsec);
                assert(m1.sections.update(j, newsec2) =~= m1.sections);
                assert(ContainerModel {
                    header: m1.header,
                    sections: m1.sections.update(j, newsec2),
                } =~= m1);
            },
            Err(_) => {
                assert(false);
            },
        }
    }
}

/// Pass-through: setting the module name leaves the header and every section
/// other than the (first) naming section untouched; with no naming section
/// present, all original sections stay and exactly one is appended.
pub proof fn lemma_set_preserves_others(c: ContainerModel, name: Seq<u8>, m: ContainerModel)
    requires
        set_module_name_spec(c, name) == Ok::<ContainerModel, DecodeError>(m),
    ensures
        m.header == c.header,
        has_name_section(c.sections) ==> m.sections.len() == c.sections.len(),
        has_name_section(c.sections) ==> forall|i: int|
            0 <= i < c.sections.len() && i != name_section_index(c.sections)
                ==> m.sections[i] == c.sections[i],
        !has_name_section(c.sections) ==> m.sections.len() == c.sections.len() + 1,
        !has_name_section(c.sections) ==> forall|i: int|
            0 <= i < c.sections.len() ==> m.sections[i] == c.sections[i],
        !has_name_section(c.sections) ==> is_name_section(m.sections[c.sections.len() as int]),
{
    if !has_name_section(c.sections) {
        assert(m.sections == c.sections.push(fresh_name_section(name)));
        assert forall|i: int| 0 <= i < c.sections.len() implies m.sections[i] == c.sections[i] by {
        };
    } else {
        lemma_name_section_index(c.sections);
        let j = name_section_index(c.sections);
        match parse_subsections(custom_payload(c.sections[j])) {
            Ok(subs) => {
                let newsec = SectionModel::Custom {
                    tag: name_tag(),
                    payload: subsections_bytes(set_subsections(subs, name)),
                };
                assert(m.sections == c.sections.update(j, newsec));
                assert forall|i: int|
                    0 <= i < c.sections.len() && i != j implies m.sections[i] == c.sections[i] by {
                };
            },
            Err(_) => {
                assert(false);
            },
        }
    }
}

/// Absence handling: with no naming section, or with a naming section that
/// decodes but holds no id-0 subsection, reading the module name gives
/// `None`, never an error.
pub proof fn lemma_get_absent(c: ContainerModel)
    ensures
        !has_name_section(c.sections) ==> get_module_name_spec(c) == Ok::<
            Option<Seq<u8>>,
            DecodeError,
        >(None),
        has_name_section(c.sections) ==> match parse_subsections(
            custom_payload(c.sections[name_section_index(c.sections)]),
        ) {
            Ok(subs) => !has_module_subsection(subs) ==> get_module_name_spec(c) == Ok::<
                Option<Seq<u8>>,
                DecodeError,
            >(None),
            Err(_) => true,
        },
{
}

/// Creation: on a container with no naming section, setting the module name
/// appends exactly one custom section tagged `"name"`, holding one id-0
/// subsection that frames the given name.
pub proof fn lemma_set_creates(c: ContainerModel, name: Seq<u8>)
    requires
        !has_name_section(c.sections),
    ensures
        set_module_name_spec(c, name) == Ok::<ContainerModel, DecodeError>(
            ContainerModel {
                header: c.header,
                sections: c.sections.push(fresh_name_section(name)),
            },
        ),
        is_name_section(fresh_name_section(name)),
        module_name_fits(name) ==> parse_subsections(custom_payload(fresh_name_section(name)))
            == Ok::<Seq<SubsectionModel>, DecodeError>(
            seq![SubsectionModel { id: 0, payload: module_name_payload(name) }],
        ),
        module_name_fits(name) ==> parse_module_name(module_name_payload(name)) == Ok::<
            Seq<u8>,
            DecodeError,
        >(name),
{
    let sub0 = SubsectionModel { id: 0, payload: module_name_payload(name) };
    if module_name_fits(name) {
        assert(subsections_encodable(seq![sub0])) by {
            assert forall|i: int| 0 <= i < seq![sub0].len() implies subsection_encodable(
                #[trigger] seq![sub0][i],
            ) by {
                assert(seq![sub0][i] == sub0);
            };
        };
        lemma_parse_subsections_roundtrip(seq![sub0]);
        lemma_parse_module_name_roundtrip(name);
    }
}

} // verus!
