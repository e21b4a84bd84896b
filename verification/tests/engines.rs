use std::collections::BTreeMap;

use vulhunt_engine::caches::{CacheBuild, CacheReply, CacheRequest};
use vulhunt_engine::checker::{CheckerArch, Globals, OneOrMany};
use vulhunt_engine::extensions::DECOMPILER;
use vulhunt_engine::scope::ScopeKind;
use vulhunt_engine::{CheckScope, Checker, CheckerExtensions, Engine};

const ARM: u64 = 11;

fn scope(kind: ScopeKind, id: u64, with: &str) -> CheckScope {
    CheckScope { kind, id, with: with.to_string() }
}

fn checker(
    name: &str,
    platform: &str,
    types: Option<&str>,
    tag: Option<u64>,
    bits: u8,
    scopes: Vec<CheckScope>,
) -> Checker {
    let globals = Globals {
        name: Ok(Some(name.to_string())),
        author: Ok(Some("someone".to_string())),
        platform: Ok(Some(platform.to_string())),
        architecture: Ok(Some(OneOrMany::One(CheckerArch { name: "arm".to_string() }))),
        signatures: Ok(None),
        types: Ok(types.map(|types| types.to_string())),
        extensions: Ok(None),
        resolved: Ok(CheckerExtensions { bits }),
        scopes: Ok(Some(OneOrMany::Many(scopes))),
        conditions: Ok(None),
    };
    let mut checker = match Checker::from_reads(Vec::new(), globals) {
        Ok(checker) => checker,
        Err(error) => panic!("{}", error.message()),
    };
    if let Some(tag) = tag {
        checker.signature_arch_tags_mut().insert(ARM, tag);
    }
    checker
}

fn checkers() -> Vec<Checker> {
    let calls = ScopeKind::Calls;
    vec![
        checker("a", "posix", Some("t"), Some(5), 0, vec![
            scope(calls, 1, "a1"),
            scope(ScopeKind::ProjectWith, 1, "a2"),
        ]),
        checker("b", "uefi", None, None, 0, vec![scope(calls, 1, "b1")]),
        checker("c", "posix", Some("t"), Some(5), DECOMPILER, vec![
            scope(calls, 2, "c1"),
            scope(calls, 1, "c2"),
            scope(calls, 1, "c3"),
        ]),
        checker("d", "posix", None, None, 0, vec![scope(calls, 1, "d1")]),
    ]
}

fn build<'a>(checkers: &'a Vec<Checker>) -> Engine<'a> {
    let mut files = BTreeMap::new();
    files.insert(5, vec!["one.sig".to_string(), "two.sig".to_string()]);
    Engine::with_applicable(
        checkers,
        &vec![true, false, true, true],
        ARM,
        files,
        Some("modules".to_string()),
        None,
        4,
    )
}

fn count(engine: &Engine) -> usize {
    (0..).take_while(|id| engine.checker_for(*id).is_some()).count()
}

#[test]
fn scopes_are_grouped_by_what_they_share() {
    let checkers = checkers();
    let engine = build(&checkers);
    assert_eq!(count(&engine), 3);
    assert_eq!(engine.group_count(), 4);
    let members = |group: usize| -> Vec<(usize, String)> {
        engine
            .group(group)
            .members
            .iter()
            .map(|member| (member.checker, member.handler.clone()))
            .collect()
    };
    assert_eq!(
        members(0),
        vec![(0, "a1".to_string()), (1, "c2".to_string()), (1, "c3".to_string())]
    );
    assert_eq!(members(1), vec![(0, "a2".to_string())]);
    assert_eq!(members(2), vec![(1, "c1".to_string())]);
    assert_eq!(members(3), vec![(2, "d1".to_string())]);
    assert_eq!(engine.group(0).types, Some("t".to_string()));
    assert_eq!(engine.group(0).tag, 5);
    assert_eq!(engine.group(1).kind, ScopeKind::ProjectWith);
    assert_eq!(engine.group(2).scope, 2);
    assert_eq!(engine.group(3).types, None);
    assert_eq!(engine.group(3).tag, 0);
}

#[test]
fn checkers_are_numbered_as_they_apply() {
    let checkers = checkers();
    let engine = build(&checkers);
    assert_eq!(engine.checker_for(0).unwrap().name(), "a");
    assert_eq!(engine.checker_for(1).unwrap().name(), "c");
    assert_eq!(engine.checker_for(2).unwrap().name(), "d");
    assert!(engine.checker_for(3).is_none());
    assert!(!engine.needs_decompiler(0));
    assert!(engine.needs_decompiler(1));
    assert!(engine.context(0).is_none());
    assert_eq!(engine.module_dir(), Some("modules"));
    assert_eq!(engine.decompiler_config(), None);
    assert_eq!(engine.files_for(5), vec!["one.sig".to_string(), "two.sig".to_string()]);
    assert!(engine.files_for(6).is_empty());
}

#[test]
fn checkers_apply_if_platform_and_conditions_do() {
    let checkers = checkers();
    let platform = "posix".to_string();
    let should = |checker: &Checker| -> Result<bool, String> {
        match checker.name() {
            "a" => Ok(true),
            "b" => panic!("asked of another platform"),
            "c" => Ok(false),
            _ => Ok(true),
        }
    };
    let validate = |checker: &Checker| -> Result<bool, String> {
        match checker.name() {
            "a" => Ok(true),
            "c" => panic!("asked of a checker that should not be run"),
            _ => Err("no such field".to_string()),
        }
    };
    let engine = Engine::new_with(
        &platform,
        ARM,
        &checkers,
        BTreeMap::new(),
        None,
        Some(9),
        &should,
        &validate,
    );
    assert_eq!(count(&engine), 1);
    assert_eq!(engine.checker_for(0).unwrap().name(), "a");
    assert_eq!(engine.decompiler_config(), Some(9));
    assert_eq!(engine.module_dir(), None);
    let all = |_: &Checker| -> Result<bool, String> { Ok(true) };
    let engine = Engine::new(&platform, ARM, &checkers, BTreeMap::new(), None, &all, &all);
    assert_eq!(count(&engine), 3);
    assert_eq!(engine.decompiler_config(), None);
    let refused = |_: &Checker| -> Result<bool, String> { Err("unknown".to_string()) };
    let engine = Engine::new(&platform, ARM, &checkers, BTreeMap::new(), None, &refused, &all);
    assert_eq!(count(&engine), 0);
    assert_eq!(engine.group_count(), 0);
}

#[test]
fn engines_run_in_parallel_on_more_than_one_processor() {
    let checkers = checkers();
    let applies = vec![true, true, true, true];
    let on = |cpus: usize| {
        Engine::with_applicable(&checkers, &applies, ARM, BTreeMap::new(), None, None, cpus)
    };
    assert!(!on(1).is_parallel());
    assert!(on(2).is_parallel());
    let mut engine = on(1);
    engine.set_parallel(true);
    assert!(engine.is_parallel());
    let all = |_: &Checker| -> Result<bool, String> { Ok(true) };
    let platform = "posix".to_string();
    let engine = Engine::new(&platform, ARM, &checkers, BTreeMap::new(), None, &all, &all);
    assert_eq!(engine.is_parallel(), num_cpus::get() > 1);
}

#[test]
fn mappings_are_built_once_for_what_they_depend_on() {
    let checkers = checkers();
    let mut engine = build(&checkers);
    let mut caches = CacheBuild::new();
    assert_eq!(engine.symbols_for(0), None);
    assert_eq!(engine.types_for(0), None);
    let steps = vec![
        (CacheRequest::BuildSymbols { tag: 5 }, CacheReply::Symbols(Ok(50))),
        (CacheRequest::LoadTypes { group: 0 }, CacheReply::Types(Ok(60))),
        (CacheRequest::Merge { symbols: 50, types: 60 }, CacheReply::Merged),
        (CacheRequest::BuildSymbols { tag: 0 }, CacheReply::Symbols(Ok(51))),
        (CacheRequest::DeriveTypes { group: 3 }, CacheReply::Types(Ok(61))),
        (CacheRequest::Merge { symbols: 51, types: 61 }, CacheReply::Merged),
    ];
    for (request, reply) in steps {
        assert_eq!(caches.pending(&engine), request);
        caches.answer(&mut engine, out_of_turn(request));
        assert_eq!(caches.pending(&engine), request);
        caches.answer(&mut engine, reply);
    }
    assert_eq!(caches.pending(&engine), CacheRequest::Nothing);
    assert!(matches!(caches.outcome(&engine), Ok(Ok(()))));
    assert_eq!(engine.symbols_for(0), Some(50));
    assert_eq!(engine.symbols_for(1), Some(50));
    assert_eq!(engine.types_for(1), Some(60));
    assert_eq!(engine.types_of_group(2), Some(60));
    // A checker without signatures has no symbols of its own, though its group has.
    assert_eq!(engine.symbols_for(2), None);
    assert_eq!(engine.symbols_under(0), Some(51));
    assert_eq!(engine.types_for(2), Some(61));
    assert_eq!(engine.types_for(3), None);
    assert_eq!(engine.symbols_for(3), None);
    let again = CacheBuild::new();
    assert_eq!(again.pending(&engine), CacheRequest::Nothing);
}

fn out_of_turn(request: CacheRequest) -> CacheReply {
    match request {
        CacheRequest::LoadTypes { .. } => CacheReply::Merged,
        _ => CacheReply::Types(Err("out of turn".to_string())),
    }
}

#[test]
fn mappings_that_cannot_be_built_are_errors() {
    let checkers = checkers();
    let mut engine = build(&checkers);
    let mut caches = CacheBuild::new();
    caches.answer(&mut engine, CacheReply::Symbols(Err("no file".to_string())));
    assert_eq!(caches.pending(&engine), CacheRequest::Nothing);
    match caches.outcome(&engine) {
        Ok(Err(error)) => {
            assert_eq!(error.message(), "cannot load required signatures: no file")
        }
        _ => panic!("the error was lost"),
    }
    let mut caches = CacheBuild::new();
    caches.answer(&mut engine, CacheReply::Symbols(Ok(50)));
    caches.answer(&mut engine, CacheReply::Types(Err("no library".to_string())));
    match caches.outcome(&engine) {
        Ok(Err(error)) => {
            assert_eq!(error.message(), "cannot load required type database: no library")
        }
        _ => panic!("the error was lost"),
    }
    assert_eq!(engine.symbols_under(5), Some(50));
    assert_eq!(engine.types_of_group(0), None);
    let caches = CacheBuild::new();
    assert_eq!(caches.pending(&engine), CacheRequest::LoadTypes { group: 0 });
    assert!(matches!(caches.outcome(&engine), Err(_)));
}
