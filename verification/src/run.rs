//! The decisions of a generator run: which options conflict, where the
//! templates are, how the loaded model is prepared, and which backend and
//! warnings the run ends with.

use vstd::prelude::*;
use crate::model::{Class, DataModel, DataType, Key, total_keys};
use crate::prepare::{
    collect_statistics, count_in_classes, enum_with_variant, key_stamped, key_with_variant,
    lemma_total_keys_same, resolve_variant, stamp_key_indices, variant_enums, variant_keys,
    variant_keys_in, KeySelector, Statistics,
};

verus! {

/// Target platform named on the command line.
#[derive(Clone, Copy, Debug, PartialEq, Eq, Structural)]
pub enum Target {
    Stm32,
    EspXtensa,
    EspRiscv,
    Mcu8bit,
    Linux64,
    /// Rust data model instead of C.
    Rust,
}

/// Platform of the C backend.
#[derive(Clone, Copy, Debug, PartialEq, Eq, Structural)]
pub enum CTarget {
    Stm32,
    EspXtensa,
    EspRiscv,
    Mcu8bit,
    Linux64,
}

/// The generator that a run ends in.
#[derive(Clone, Copy, Debug, PartialEq, Eq, Structural)]
pub enum Backend {
    Rust,
    C(CTarget),
}

/// An option that the chosen backend ignores.
#[derive(Clone, Copy, Debug, PartialEq, Eq, Structural)]
pub enum RunWarning {
    /// `--emit-tinyfsm` has no effect for the Rust backend.
    TinyfsmIgnoredForRust,
    /// `--no-events` has no effect for the Rust backend.
    NoEventsIgnoredForRust,
}

/// Why a run stops.
#[derive(Clone, Debug, PartialEq)]
pub enum RunError {
    /// Both an include list and an exclude list were given.
    ListsMutuallyExclusive,
}

/// The options of a run that its decisions depend on.
#[derive(Clone, Debug)]
pub struct RunConfig {
    pub include_list: bool,
    pub exclude_list: bool,
    pub variant: Option<String>,
    pub target: Target,
    pub no_events: bool,
    pub emit_tinyfsm: bool,
}

/// What a run goes on to generate from.
#[derive(Clone, Debug)]
pub struct RunPlan {
    /// The prepared model.
    pub model: DataModel,
    /// The fallback namespace id.
    pub ns_id: u16,
    /// Keys and enums that the variant overrode, where a variant was given.
    pub variant_counts: Option<(usize, usize)>,
    pub statistics: Statistics,
    pub backend: Backend,
    pub warnings: Vec<RunWarning>,
}

/// Rejects an include list given together with an exclude list.
pub fn check_list_options(include_list: bool, exclude_list: bool) -> (r: Result<(), RunError>)
    ensures
        r is Err <==> include_list && exclude_list,
        r matches Err(e) ==> e == RunError::ListsMutuallyExclusive,
{
    if include_list && exclude_list {
        Err(RunError::ListsMutuallyExclusive)
    } else {
        Ok(())
    }
}

/// The variant name of a run, as characters.
pub open spec fn variant_view(v: Option<String>) -> Option<Seq<char>> {
    match v {
        Some(s) => Some(s@),
        None => None,
    }
}

/// A key at position `pos` once prepared: its position stamped, then the
/// variant (if any) resolved.
pub open spec fn prepared_key(k: Key, pos: int, variant: Option<Seq<char>>) -> Key {
    match variant {
        Some(v) => key_with_variant(key_stamped(k, pos), v),
        None => key_stamped(k, pos),
    }
}

/// `new` is `old` prepared for `variant`: same header, the same classes
/// with their keys prepared, and, where a variant is given, each enum
/// resolved for it.
pub open spec fn prepared_ok(new: DataModel, old: DataModel, variant: Option<Seq<char>>) -> bool {
    &&& new.meta == old.meta
    &&& new.classes@.len() == old.classes@.len()
    &&& forall|i: int|
        0 <= i < old.classes@.len() ==> {
            let c = #[trigger] new.classes@[i];
            let o = old.classes@[i];
            &&& c.id == o.id
            &&& c.namespace_name == o.namespace_name
            &&& c.namespace_id == o.namespace_id
            &&& c.class_index == o.class_index
            &&& c.keys@ == o.keys@.map(|j: int, k: Key| prepared_key(k, j, variant))
        }
    &&& match variant {
        None => new.enums == old.enums,
        Some(v) => {
            &&& new.enums.key_seq() == old.enums.key_seq()
            &&& new.enums.value_seq().len() == old.enums.value_seq().len()
            &&& forall|i: int|
                0 <= i < old.enums.value_seq().len() ==> enum_with_variant(
                    #[trigger] new.enums.value_seq()[i],
                    old.enums.value_seq()[i],
                    v,
                )
        },
    }
}

/// The backend that a target selects.
pub open spec fn spec_backend(t: Target) -> Backend {
    match t {
        Target::Stm32 => Backend::C(CTarget::Stm32),
        Target::EspXtensa => Backend::C(CTarget::EspXtensa),
        Target::EspRiscv => Backend::C(CTarget::EspRiscv),
        Target::Mcu8bit => Backend::C(CTarget::Mcu8bit),
        Target::Linux64 => Backend::C(CTarget::Linux64),
        Target::Rust => Backend::Rust,
    }
}

/// The warnings a run gives: for the Rust backend, one for each C-only
/// option that was set; none otherwise.
pub open spec fn spec_warnings(c: RunConfig) -> Seq<RunWarning> {
    if c.target == Target::Rust {
        (if c.emit_tinyfsm {
            seq![RunWarning::TinyfsmIgnoredForRust]
        } else {
            Seq::empty()
        }) + (if c.no_events {
            seq![RunWarning::NoEventsIgnoredForRust]
        } else {
            Seq::empty()
        })
    } else {
        Seq::empty()
    }
}

/// For a C target the C-only options add no warning and do not change the
/// backend: `--emit-tinyfsm` and `--no-events` leave the plan's backend and
/// warnings as they are.
pub proof fn lemma_c_targets_ignore_c_only_flags(a: RunConfig, b: RunConfig)
    requires
        a.target == b.target,
        a.target != Target::Rust,
    ensures
        spec_warnings(a) == spec_warnings(b),
        spec_warnings(a).len() == 0,
        spec_backend(a.target) == spec_backend(b.target),
{
}

/// The backend and warnings of a run, stated on the options: the Rust
/// target picks the Rust backend and warns first of `--emit-tinyfsm` and
/// then of `--no-events`, each only when set; every other target picks the
/// C backend for that platform and warns of nothing.
pub proof fn lemma_backend_and_warnings(c: RunConfig)
    ensures
        c.target == Target::Rust ==> spec_backend(c.target) == Backend::Rust,
        c.target == Target::Stm32 ==> spec_backend(c.target) == Backend::C(CTarget::Stm32),
        c.target == Target::EspXtensa ==> spec_backend(c.target) == Backend::C(CTarget::EspXtensa),
        c.target == Target::EspRiscv ==> spec_backend(c.target) == Backend::C(CTarget::EspRiscv),
        c.target == Target::Mcu8bit ==> spec_backend(c.target) == Backend::C(CTarget::Mcu8bit),
        c.target == Target::Linux64 ==> spec_backend(c.target) == Backend::C(CTarget::Linux64),
        c.target != Target::Rust ==> spec_warnings(c).len() == 0,
        c.target == Target::Rust ==> {
            &&& spec_warnings(c).len() == (if c.emit_tinyfsm { 1int } else { 0 }) + (if c.no_events { 1int } else { 0 })
            &&& c.emit_tinyfsm ==> spec_warnings(c)[0] == RunWarning::TinyfsmIgnoredForRust
            &&& c.no_events ==> spec_warnings(c)[spec_warnings(c).len() - 1] == RunWarning::NoEventsIgnoredForRust
        },
{
}

/// A prepared key, stated on its own fields: its index is its own or else
/// its position (wrapped to `u16`); with a variant whose default it holds,
/// its default is that per-variant default, and otherwise its own; nothing
/// else changes.
pub proof fn lemma_prepared_key_fields(k: Key, pos: int, variant: Option<Seq<char>>)
    ensures
        ({
            let n = prepared_key(k, pos, variant);
            &&& n.key_index == Some(
                match k.key_index {
                    Some(x) => x,
                    None => (pos % 65536) as u16,
                },
            )
            &&& n.default == match variant {
                Some(v) => if k.defaults@.dom().contains(v) {
                    Some(k.defaults@[v])
                } else {
                    k.default
                },
                None => k.default,
            }
            &&& n == Key { key_index: n.key_index, default: n.default, ..k }
        }),
{
}

proof fn lemma_variant_keys_in_stamped(keys: Seq<Key>, v: Seq<char>)
    ensures
        variant_keys_in(keys.map(|j: int, k: Key| key_stamped(k, j)), v) == variant_keys_in(keys, v),
    decreases keys.len(),
{
    if keys.len() > 0 {
        let s = keys.map(|j: int, k: Key| key_stamped(k, j));
        lemma_variant_keys_in_stamped(keys.drop_last(), v);
        assert(s.drop_last() =~= keys.drop_last().map(|j: int, k: Key| key_stamped(k, j)));
    }
}

proof fn lemma_variant_keys_stamped(a: Seq<Class>, b: Seq<Class>, v: Seq<char>)
    requires
        a.len() == b.len(),
        forall|i: int|
            0 <= i < a.len() ==> (#[trigger] a[i]).keys@ == b[i].keys@.map(
                |j: int, k: Key| key_stamped(k, j),
            ),
    ensures
        variant_keys(a, v) == variant_keys(b, v),
    decreases a.len(),
{
    if a.len() > 0 {
        lemma_variant_keys_stamped(a.drop_last(), b.drop_last(), v);
        lemma_variant_keys_in_stamped(b.last().keys@, v);
    }
}

/// Prepares a loaded model for generation and settles the backend.
///
/// An include list together with an exclude list is refused. Otherwise
/// every key without an explicit index gets its position in its class, the
/// variant (if any) is resolved, the keys are counted by type, the fallback
/// namespace id is the model's own or 0, and the target picks the backend;
/// the Rust backend warns of each C-only option that was set.
pub fn run(config: &RunConfig, model: DataModel) -> (r: Result<RunPlan, RunError>)
    requires
        model.wf(),
        total_keys(model.classes@) <= usize::MAX,
    ensures
        r is Err <==> config.include_list && config.exclude_list,
        r matches Err(e) ==> e == RunError::ListsMutuallyExclusive,
        r matches Ok(p) ==> {
            &&& p.model.wf()
            &&& prepared_ok(p.model, model, variant_view(config.variant))
            &&& p.variant_counts == match config.variant {
                Some(v) => Some(
                    (
                        variant_keys(model.classes@, v@) as usize,
                        variant_enums(model.enums.value_seq(), v@) as usize,
                    ),
                ),
                None => None,
            }
            &&& p.statistics.bool_count == count_in_classes(
                p.model.classes@,
                KeySelector::OfType(DataType::Bool),
            )
            &&& p.statistics.u8_count == count_in_classes(
                p.model.classes@,
                KeySelector::OfType(DataType::Uint8),
            )
            &&& p.statistics.i8_count == count_in_classes(
                p.model.classes@,
                KeySelector::OfType(DataType::Int8),
            )
            &&& p.statistics.u16_count == count_in_classes(
                p.model.classes@,
                KeySelector::OfType(DataType::Uint16),
            )
            &&& p.statistics.i16_count == count_in_classes(
                p.model.classes@,
                KeySelector::OfType(DataType::Int16),
            )
            &&& p.statistics.u32_count == count_in_classes(
                p.model.classes@,
                KeySelector::OfType(DataType::Uint32),
            )
            &&& p.statistics.i32_count == count_in_classes(
                p.model.classes@,
                KeySelector::OfType(DataType::Int32),
            )
            &&& p.statistics.ro_string_count == count_in_classes(
                p.model.classes@,
                KeySelector::Text(true),
            )
            &&& p.statistics.rw_string_count == count_in_classes(
                p.model.classes@,
                KeySelector::Text(false),
            )
            &&& p.ns_id == match model.meta.namespace_id {
                Some(n) => n,
                None => 0u16,
            }
            &&& p.backend == spec_backend(config.target)
            &&& p.warnings@ == spec_warnings(*config)
        },
{
    check_list_options(config.include_list, config.exclude_list)?;
    let ghost m0 = model;
    let mut model = model;
    stamp_key_indices(&mut model);
    let ghost m1 = model;
    proof {
        lemma_total_keys_same(m1.classes@, m0.classes@);
    }
    let variant_counts = match &config.variant {
        Some(v) => {
            let counts = resolve_variant(&mut model, v.as_str());
            proof {
                lemma_variant_keys_stamped(m1.classes@, m0.classes@, v@);
            }
            Some(counts)
        },
        None => None,
    };
    proof {
        lemma_total_keys_same(model.classes@, m0.classes@);
        assert forall|i: int| 0 <= i < m0.classes@.len() implies {
            let c = #[trigger] model.classes@[i];
            let o = m0.classes@[i];
            &&& c.id == o.id
            &&& c.namespace_name == o.namespace_name
            &&& c.namespace_id == o.namespace_id
            &&& c.class_index == o.class_index
            &&& c.keys@ == o.keys@.map(|j: int, k: Key| prepared_key(k, j, variant_view(config.variant)))
        } by {
            let c = model.classes@[i];
            let o = m0.classes@[i];
            let c1 = m1.classes@[i];
            assert(c1.keys@ == o.keys@.map(|j: int, k: Key| key_stamped(k, j)));
            match config.variant {
                Some(v) => {
                    assert(c.keys@ =~= o.keys@.map(|j: int, k: Key| prepared_key(k, j, variant_view(config.variant))));
                },
                None => {
                    assert(c.keys@ =~= o.keys@.map(|j: int, k: Key| prepared_key(k, j, variant_view(config.variant))));
                },
            }
        }
    }
    let statistics = collect_statistics(&model);
    let ns_id = match model.meta.namespace_id {
        Some(n) => n,
        None => 0,
    };
    let mut warnings: Vec<RunWarning> = Vec::new();
    let backend = match config.target {
        Target::Rust => {
            if config.emit_tinyfsm {
                warnings.push(RunWarning::TinyfsmIgnoredForRust);
            }
            if config.no_events {
                warnings.push(RunWarning::NoEventsIgnoredForRust);
            }
            Backend::Rust
        },
        Target::Stm32 => Backend::C(CTarget::Stm32),
        Target::EspXtensa => Backend::C(CTarget::EspXtensa),
        Target::EspRiscv => Backend::C(CTarget::EspRiscv),
        Target::Mcu8bit => Backend::C(CTarget::Mcu8bit),
        Target::Linux64 => Backend::C(CTarget::Linux64),
    };
    assert(warnings@ =~= spec_warnings(*config));
    Ok(RunPlan { model, ns_id, variant_counts, statistics, backend, warnings })
}

/// One place where the templates may be, as the search found it.
#[derive(Clone, Debug, PartialEq)]
pub enum TemplateCandidate {
    /// A directory that exists, by its path.
    Dir(String),
    /// Nothing usable there.
    Missing,
    /// The place could not be worked out; the message says why.
    Unreadable(String),
}

/// Why no templates directory was found.
#[derive(Clone, Debug, PartialEq)]
pub enum TemplateDirError {
    /// The directory named explicitly does not exist.
    ExplicitMissing(String),
    /// A place in the search could not be worked out.
    Unreadable(String),
    /// No place in the search holds the templates.
    NotFound,
}

/// Position of the first candidate that settles the search: the first that
/// is a directory or that could not be worked out.
pub open spec fn first_settling(c: Seq<TemplateCandidate>) -> Option<int>
    decreases c.len(),
{
    if c.len() == 0 {
        None
    } else {
        match c[0] {
            TemplateCandidate::Missing => match first_settling(c.drop_first()) {
                Some(i) => Some(i + 1),
                None => None,
            },
            _ => Some(0),
        }
    }
}

/// The search settles on the first candidate, counting from the very first,
/// that is not `Missing`: every candidate before it is `Missing`; and it
/// settles on none only when every candidate is `Missing`.
pub proof fn lemma_first_settling_is_first_not_missing(c: Seq<TemplateCandidate>)
    ensures
        first_settling(c) matches Some(i) ==> 0 <= i < c.len() && c[i] != TemplateCandidate::Missing
            && forall|t: int| 0 <= t < i ==> #[trigger] c[t] == TemplateCandidate::Missing,
        first_settling(c) is None ==> forall|t: int| 0 <= t < c.len() ==> #[trigger] c[t] == TemplateCandidate::Missing,
        c.len() > 0 && c[0] != TemplateCandidate::Missing ==> first_settling(c) == Some(0int),
    decreases c.len(),
{
    if c.len() > 0 {
        lemma_first_settling_is_first_not_missing(c.drop_first());
        if c[0] == TemplateCandidate::Missing {
            assert forall|t: int| 0 < t < c.len() implies #[trigger] c[t] == c.drop_first()[t - 1] by {}
        }
    }
}

/// Settles where the templates are. A directory named explicitly is taken
/// if it exists and is an error if it does not; otherwise the candidates
/// are tried in order and the first directory wins, a place that could not
/// be worked out stopping the search with its error.
pub fn resolve_template_dir(explicit: Option<(String, bool)>, candidates: &Vec<TemplateCandidate>) -> (r: Result<String, TemplateDirError>)
    ensures
        explicit matches Some((p, true)) ==> r == Ok::<String, TemplateDirError>(p),
        explicit matches Some((p, false)) ==> r == Err::<String, TemplateDirError>(TemplateDirError::ExplicitMissing(p)),
        explicit is None ==> match first_settling(candidates@) {
            Some(i) => match candidates@[i] {
                TemplateCandidate::Dir(p) => r == Ok::<String, TemplateDirError>(p),
                TemplateCandidate::Unreadable(m) => r == Err::<String, TemplateDirError>(TemplateDirError::Unreadable(m)),
                TemplateCandidate::Missing => false,
            },
            None => r == Err::<String, TemplateDirError>(TemplateDirError::NotFound),
        },
{
    match explicit {
        Some((p, exists)) => {
            if exists {
                Ok(p)
            } else {
                Err(TemplateDirError::ExplicitMissing(p))
            }
        },
        None => search_candidates(candidates),
    }
}

/// Tries the candidates in order.
fn search_candidates(candidates: &Vec<TemplateCandidate>) -> (r: Result<String, TemplateDirError>)
    ensures
        match first_settling(candidates@) {
            Some(i) => match candidates@[i] {
                TemplateCandidate::Dir(p) => r == Ok::<String, TemplateDirError>(p),
                TemplateCandidate::Unreadable(m) => r == Err::<String, TemplateDirError>(TemplateDirError::Unreadable(m)),
                TemplateCandidate::Missing => false,
            },
            None => r == Err::<String, TemplateDirError>(TemplateDirError::NotFound),
        },
{
    let n = candidates.len();
    let mut i: usize = 0;
    assert(candidates@.skip(0) =~= candidates@);
    while i < n
        invariant
            n == candidates@.len(),
            i <= n,
            forall|t: int| 0 <= t < i ==> candidates@[t] == TemplateCandidate::Missing,
            first_settling(candidates@) == match first_settling(candidates@.skip(i as int)) {
                Some(x) => Some(x + i),
                None => None,
            },
        decreases n - i,
    {
        assert(candidates@.skip(i as int)[0] == candidates@[i as int]);
        match &candidates[i] {
            TemplateCandidate::Dir(p) => {
                return Ok(p.clone());
            },
            TemplateCandidate::Unreadable(m) => {
                return Err(TemplateDirError::Unreadable(m.clone()));
            },
            TemplateCandidate::Missing => {},
        }
        assert(candidates@.skip(i as int).drop_first() =~= candidates@.skip(i + 1));
        i = i + 1;
    }
    assert(candidates@.skip(n as int).len() == 0);
    Err(TemplateDirError::NotFound)
}

} // verus!
