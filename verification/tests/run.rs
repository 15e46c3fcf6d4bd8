use ingot::model::{Class, DataModel, DataType, DefaultValue, Key, Meta};
use ingot::run::{
    check_list_options, resolve_template_dir, run, Backend, CTarget, RunConfig, RunError,
    RunWarning, Target, TemplateCandidate, TemplateDirError,
};
use ingot::strmap::StrMap;

fn sample_model() -> DataModel {
    let mut k = Key {
        id: "speed".to_string(),
        data_type: DataType::Uint8,
        default: Some(DefaultValue::Integer(1)),
        defaults: StrMap::new(),
        enum_ref: None,
        max_size: None,
        read_only: false,
        thread_safe: false,
        persistent: false,
        event: false,
        helpers: false,
        key_index: None,
    };
    k.defaults.insert("pro".to_string(), DefaultValue::Integer(3));
    DataModel {
        meta: Meta { id: "dev".to_string(), version: "1".to_string(), doc: None, namespace_id: Some(6) },
        enums: StrMap::new(),
        classes: vec![Class {
            id: "cfg".to_string(),
            keys: vec![k],
            namespace_name: None,
            namespace_id: None,
            class_index: None,
        }],
    }
}

fn config(target: Target) -> RunConfig {
    RunConfig {
        include_list: false,
        exclude_list: false,
        variant: None,
        target,
        no_events: false,
        emit_tinyfsm: false,
    }
}

#[test]
fn include_and_exclude_lists_are_mutually_exclusive() {
    assert_eq!(check_list_options(true, true), Err(RunError::ListsMutuallyExclusive));
    assert_eq!(check_list_options(true, false), Ok(()));
    let mut c = config(Target::Linux64);
    c.include_list = true;
    c.exclude_list = true;
    assert_eq!(run(&c, sample_model()).err(), Some(RunError::ListsMutuallyExclusive));
}

#[test]
fn run_prepares_the_model_for_the_c_backend() {
    let mut c = config(Target::Stm32);
    c.variant = Some("pro".to_string());
    c.emit_tinyfsm = true;
    let plan = run(&c, sample_model()).unwrap();
    assert_eq!(plan.backend, Backend::C(CTarget::Stm32));
    assert!(plan.warnings.is_empty());
    assert_eq!(plan.ns_id, 6);
    assert_eq!(plan.variant_counts, Some((1, 0)));
    assert_eq!(plan.statistics.u8_count, 1);
    assert_eq!(plan.model.classes[0].keys[0].key_index, Some(0));
    assert_eq!(plan.model.classes[0].keys[0].default, Some(DefaultValue::Integer(3)));
}

#[test]
fn rust_backend_warns_of_c_only_options() {
    let mut c = config(Target::Rust);
    c.emit_tinyfsm = true;
    c.no_events = true;
    let mut m = sample_model();
    m.meta.namespace_id = None;
    let plan = run(&c, m).unwrap();
    assert_eq!(plan.backend, Backend::Rust);
    assert_eq!(
        plan.warnings,
        vec![RunWarning::TinyfsmIgnoredForRust, RunWarning::NoEventsIgnoredForRust]
    );
    assert_eq!(plan.ns_id, 0);
    assert_eq!(plan.variant_counts, None);
    assert_eq!(plan.model.classes[0].keys[0].default, Some(DefaultValue::Integer(1)));
}

#[test]
fn template_search_takes_the_first_directory() {
    let cands = vec![
        TemplateCandidate::Missing,
        TemplateCandidate::Dir("/opt/t".to_string()),
        TemplateCandidate::Dir("/usr/t".to_string()),
    ];
    assert_eq!(resolve_template_dir(None, &cands), Ok("/opt/t".to_string()));
    assert_eq!(
        resolve_template_dir(Some(("/x".to_string(), true)), &cands),
        Ok("/x".to_string())
    );
    assert_eq!(
        resolve_template_dir(Some(("/x".to_string(), false)), &cands),
        Err(TemplateDirError::ExplicitMissing("/x".to_string()))
    );
    assert_eq!(
        resolve_template_dir(None, &vec![TemplateCandidate::Missing]),
        Err(TemplateDirError::NotFound)
    );
    let broken = vec![
        TemplateCandidate::Missing,
        TemplateCandidate::Unreadable("no cwd".to_string()),
        TemplateCandidate::Dir("/usr/t".to_string()),
    ];
    assert_eq!(
        resolve_template_dir(None, &broken),
        Err(TemplateDirError::Unreadable("no cwd".to_string()))
    );
}
