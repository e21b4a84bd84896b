use std::cell::RefCell;
use std::collections::{BTreeMap, BTreeSet};

use mlua::Lua;

use vulhunt_engine::agenda::{Place, Reply, Request, Targets, Visit};
use vulhunt_engine::caches::{CacheReply, CacheRequest};
use vulhunt_engine::candidates::Edge;
use vulhunt_engine::checker::{CheckerArch, Globals, OneOrMany};
use vulhunt_engine::context::{Preludes, Step, Steps};
use vulhunt_engine::extensions::DECOMPILER;
use vulhunt_engine::parallel::ParallelSearch;
use vulhunt_engine::run::{Run, RunReply, RunRequest, WorkResult};
use vulhunt_engine::scope::ScopeKind;
use vulhunt_engine::sequential::SequentialRun;
use vulhunt_engine::{
    CheckResult, CheckScope, Checker, CheckerContext, CheckerError, CheckerExtensions, Engine,
};

const CODE: &[u8] = b"
    seen = 0
    function handle(where) seen = seen + 1; return where end
    function never(where) return nil end
    function fail(where) error('failed') end
";

const PRELUDES: Preludes<'static> =
    Preludes { prelude: b"", functional: b"" };

fn scope(kind: ScopeKind, id: u64, with: &str) -> CheckScope {
    CheckScope { kind, id, with: with.to_string() }
}

fn checker(name: &str, bits: u8, scopes: Vec<CheckScope>) -> Checker {
    let globals = Globals {
        name: Ok(Some(name.to_string())),
        author: Ok(Some("someone".to_string())),
        platform: Ok(Some("posix".to_string())),
        architecture: Ok(Some(OneOrMany::One(CheckerArch { name: "arm".to_string() }))),
        signatures: Ok(None),
        types: Ok(None),
        extensions: Ok(None),
        resolved: Ok(CheckerExtensions { bits }),
        scopes: Ok(Some(OneOrMany::Many(scopes))),
        conditions: Ok(None),
    };
    match Checker::from_reads(CODE.to_vec(), globals) {
        Ok(checker) => checker,
        Err(error) => panic!("{}", error.message()),
    }
}

/// Two light checkers and a heavy one: calls scopes 1 and 2, all functions, one function, project.
fn checkers() -> Vec<Checker> {
    let all = ScopeKind::FunctionWith { targeted: false };
    let some = ScopeKind::FunctionWith { targeted: true };
    vec![
        checker("light", 0, vec![
            scope(ScopeKind::Calls, 1, "handle"),
            scope(ScopeKind::ProjectWith, 0, "handle"),
        ]),
        checker("heavy", DECOMPILER, vec![
            scope(ScopeKind::Calls, 1, "handle"),
            scope(all, 3, "handle"),
        ]),
        checker("quiet", 0, vec![
            scope(ScopeKind::Calls, 2, "never"),
            scope(some, 4, "handle"),
        ]),
    ]
}

fn engine<'a>(checkers: &'a Vec<Checker>, cpus: usize) -> Engine<'a> {
    let applies = vec![true; checkers.len()];
    Engine::with_applicable(checkers, &applies, 1, BTreeMap::new(), None, None, cpus)
}

fn number(place: Place) -> usize {
    match place {
        Place::CallSite { function, block } => (function * 100 + block) as usize,
        Place::Function { function } => function as usize,
        Place::Project => 0,
    }
}

fn call(vm: &Lua, handler: &str, place: Place) -> Result<Option<usize>, String> {
    vm.globals()
        .get::<mlua::Function>(handler)
        .and_then(|function| function.call::<Option<usize>>(number(place)))
        .map_err(|_| "failed".to_string())
}

fn nothing(vm: Lua) -> Step {
    Ok(vm)
}

fn run_code(vm: Lua, name: &str, code: &[u8]) -> Step {
    match vm.load(code).set_name(name).exec() {
        Ok(()) => Ok(vm),
        Err(error) => Err(error.to_string()),
    }
}

fn no_modules(vm: Lua, _: Option<&str>) -> Step {
    Ok(vm)
}

fn made(engine: &Engine, checker: usize) -> Result<CheckerContext, CheckerError> {
    let steps = Steps { types: nothing, run: run_code, library: run_code, loader: no_modules };
    engine.make_context(checker, Lua::new(), &PRELUDES, steps)
}

fn targets(group: usize) -> Targets {
    match group {
        0 => Targets { functions: vec![10, 20], with_jumps: true },
        _ => Targets { functions: vec![10], with_jumps: false },
    }
}

fn edges(target: u64) -> Vec<Edge> {
    let edge = |is_call, function, block| Edge { is_call, is_branch: !is_call, function, block };
    match target {
        10 => vec![edge(true, 2, 1), edge(false, 1, 5), edge(true, 2, 3)],
        _ => vec![edge(true, 3, 7)],
    }
}

fn answer(engine: &Engine, request: Request) -> Reply {
    match request {
        Request::Targets { group } => Reply::Targets(Ok(targets(group))),
        Request::Edges { target, .. } => Reply::Edges(edges(target)),
        Request::Where { function, .. } => Reply::Where(Ok(function != 3)),
        Request::Analyse { .. } => Reply::Analysed,
        Request::Functions { .. } => Reply::Functions(Ok(vec![8])),
        Request::AllFunctions { .. } => Reply::Functions(Ok(vec![1, 2])),
        Request::Context { checker } => Reply::Context(made(engine, checker)),
        Request::CreateDecompiler => Reply::Decompiler(Ok(())),
        Request::ClearDecompiler => Reply::Decompiler(Ok(())),
        Request::ConfigureDecompiler { .. } => Reply::Configured(Ok(())),
        Request::Invoke { visit } => {
            Reply::Invoked(engine.make_visit(&visit, |vm: &Lua, name: &str| call(vm, name, visit.place)))
        }
        Request::Nothing => panic!("asked for nothing"),
    }
}

fn cache(request: CacheRequest) -> CacheReply {
    match request {
        CacheRequest::BuildSymbols { .. } => CacheReply::Symbols(Ok(1)),
        CacheRequest::LoadTypes { .. } => CacheReply::Types(Ok(2)),
        CacheRequest::DeriveTypes { .. } => CacheReply::Types(Ok(3)),
        CacheRequest::Merge { .. } => CacheReply::Merged,
        CacheRequest::Nothing => panic!("asked for nothing"),
    }
}

fn dispatch(engine: &Engine, work: &[Visit]) -> Result<Vec<WorkResult>, CheckerError> {
    let mut results = Vec::new();
    for (item, visit) in work.iter().enumerate().rev() {
        let given = engine.execute_calls_work_item(
            visit,
            Lua::new(),
            &PRELUDES,
            Steps { types: nothing, run: run_code, library: run_code, loader: no_modules },
            |vm: &Lua, name: &str| call(vm, name, visit.place),
        )?;
        if let Some(result) = given {
            results.push(WorkResult { item, result });
        }
    }
    Ok(results)
}

fn host(engine: &Engine, run: &Run) -> RunReply {
    match run.pending(engine) {
        RunRequest::Cache(request) => RunReply::Cache(cache(request)),
        RunRequest::Step(request) => RunReply::Step(answer(engine, request)),
        RunRequest::Dispatch => RunReply::Dispatched(dispatch(engine, run.work())),
        RunRequest::Nothing => panic!("asked for nothing"),
    }
}

/// Runs `engine`, where `ask` answers.
fn drive(
    engine: &mut Engine,
    ask: impl Fn(&Engine, &Run) -> RunReply,
) -> Result<Vec<CheckResult>, CheckerError> {
    engine.run(&|asked: usize, engine: &Engine, run: &Run| (asked + 1, ask(engine, run)), 0).0
}

fn found(res: Result<Vec<CheckResult>, CheckerError>) -> Vec<(usize, usize)> {
    match res {
        Ok(checks) => {
            checks.into_iter().map(|check| (check.rule.unwrap(), check.finding)).collect()
        }
        Err(error) => panic!("{}", error.message()),
    }
}

/// Calls of 10 come from 1 (block 5, a branch) and 2 (blocks 1 and 3); 3, which calls 20, is not
/// admitted.
fn sequential_findings() -> Vec<(usize, usize)> {
    vec![
        (0, 105),
        (1, 105),
        (0, 201),
        (1, 201),
        (0, 203),
        (1, 203),
        (0, 0),
        (1, 1),
        (1, 2),
        (2, 8),
    ]
}

#[test]
fn visits_are_made_in_order() {
    let checkers = checkers();
    let mut engine = engine(&checkers, 1);
    assert_eq!(found(drive(&mut engine, host)), sequential_findings());
}

#[test]
fn parallel_findings_come_first() {
    let checkers = checkers();
    let mut engine = engine(&checkers, 2);
    assert_eq!(
        found(drive(&mut engine, host)),
        vec![
            (0, 203),
            (0, 201),
            (0, 105),
            (1, 105),
            (1, 201),
            (1, 203),
            (0, 0),
            (1, 1),
            (1, 2),
            (2, 8),
        ]
    );
}

#[test]
fn parallel_and_sequential_runs_find_the_same() {
    let checkers = checkers();
    let mut one = found(drive(&mut engine(&checkers, 1), host));
    let mut other = found(drive(&mut engine(&checkers, 8), host));
    one.sort();
    other.sort();
    assert_eq!(one, other);
}

#[test]
fn the_host_is_asked_once_for_each_need() {
    let checkers = vec![checker("one", 0, vec![scope(ScopeKind::ProjectWith, 0, "handle")])];
    let mut engine = engine(&checkers, 1);
    let noting = |mut asked: Vec<RunRequest>, engine: &Engine, run: &Run| {
        asked.push(run.pending(engine));
        (asked, host(engine, run))
    };
    let (outcome, asked) = engine.run(&noting, Vec::new());
    assert_eq!(found(outcome), vec![(0, 0)]);
    let visit = Visit { group: 0, member: 0, checker: 0, place: Place::Project };
    assert_eq!(
        asked,
        vec![
            RunRequest::Cache(CacheRequest::BuildSymbols { tag: 0 }),
            RunRequest::Cache(CacheRequest::DeriveTypes { group: 0 }),
            RunRequest::Cache(CacheRequest::Merge { symbols: 1, types: 3 }),
            RunRequest::Step(Request::Context { checker: 0 }),
            RunRequest::Step(Request::Invoke { visit }),
        ]
    );
}

#[test]
fn states_are_kept_between_runs() {
    let checkers = checkers();
    let mut engine = engine(&checkers, 1);
    let made = RefCell::new(Vec::new());
    let counting = |engine: &Engine, run: &Run| -> RunReply {
        if let RunRequest::Step(Request::Context { checker }) = run.pending(engine) {
            made.borrow_mut().push(checker);
        }
        host(engine, run)
    };
    found(drive(&mut engine, &counting));
    found(drive(&mut engine, &counting));
    assert_eq!(*made.borrow(), vec![0, 1, 2]);
    let seen = |checker: usize| -> i64 {
        engine.context(checker).unwrap().vm().globals().get("seen").unwrap()
    };
    assert_eq!(seen(0), 8);
    assert_eq!(seen(1), 10);
    assert_eq!(seen(2), 2);
}

#[test]
fn the_decompiler_is_made_once_and_emptied_after() {
    let checkers = checkers();
    let mut engine = engine(&checkers, 1);
    let asked = RefCell::new(Vec::new());
    let noting = |engine: &Engine, run: &Run| -> RunReply {
        match run.pending(engine) {
            RunRequest::Step(request) => match request {
                Request::CreateDecompiler
                | Request::ClearDecompiler
                | Request::ConfigureDecompiler { .. } => asked.borrow_mut().push(request),
                Request::Invoke { visit } => {
                    if visit.checker == 1 {
                        asked.borrow_mut().push(request)
                    }
                }
                _ => {}
            },
            _ => {}
        }
        host(engine, run)
    };
    found(drive(&mut engine, &noting));
    let asked = asked.into_inner();
    assert_eq!(asked.len(), 15);
    assert_eq!(asked[0], Request::CreateDecompiler);
    for (n, request) in asked.iter().enumerate() {
        match n % 3 {
            0 => assert!(n == 0 || *request == Request::ClearDecompiler),
            1 => assert!(matches!(request, Request::ConfigureDecompiler { .. })),
            _ => assert!(matches!(request, Request::Invoke { .. })),
        }
    }
}

#[test]
fn at_call_sites_the_state_comes_before_the_decompiler() {
    let checkers = vec![checker("heavy", DECOMPILER, vec![scope(ScopeKind::Calls, 1, "handle")])];
    let mut engine = engine(&checkers, 1);
    let mut run = SequentialRun::new(&engine, BTreeSet::new());
    let mut asked = Vec::new();
    while run.pending(&engine) != Request::Nothing {
        let request = run.pending(&engine);
        asked.push(request);
        let reply = answer(&engine, request);
        run.answer(&mut engine, reply);
    }
    let at = |wanted: Request| asked.iter().position(|request| *request == wanted).unwrap();
    let state = at(Request::Context { checker: 0 });
    assert_eq!(at(Request::CreateDecompiler), state + 1);
    assert_eq!(at(Request::ConfigureDecompiler { group: 0 }), state + 2);
    assert!(matches!(asked[state + 3], Request::Invoke { .. }));
    assert!(matches!(run.outcome(), Ok(Ok(checks)) if checks.len() == 3));
}

#[test]
fn elsewhere_the_decompiler_comes_before_the_state() {
    let checkers = vec![checker("heavy", DECOMPILER, vec![scope(ScopeKind::ProjectWith, 1, "handle")])];
    let mut engine = engine(&checkers, 1);
    let mut run = SequentialRun::new(&engine, BTreeSet::new());
    let visit = Visit { group: 0, member: 0, checker: 0, place: Place::Project };
    for wanted in [
        Request::CreateDecompiler,
        Request::ConfigureDecompiler { group: 0 },
        Request::Context { checker: 0 },
        Request::Invoke { visit },
    ] {
        assert_eq!(run.pending(&engine), wanted);
        let reply = answer(&engine, wanted);
        run.answer(&mut engine, reply);
    }
    assert_eq!(run.pending(&engine), Request::Nothing);
}

#[test]
fn skipped_checkers_are_left_out_at_call_sites_only() {
    let checkers = checkers();
    let mut engine = engine(&checkers, 1);
    let mut run = SequentialRun::new(&engine, BTreeSet::from([0, 2]));
    while run.pending(&engine) != Request::Nothing {
        let reply = answer(&engine, run.pending(&engine));
        run.answer(&mut engine, reply);
    }
    let checks = match run.outcome() {
        Ok(outcome) => found(outcome),
        Err(_) => panic!("the run has not ended"),
    };
    assert_eq!(checks, vec![(1, 105), (1, 201), (1, 203), (0, 0), (1, 1), (1, 2), (2, 8)]);
}

#[test]
fn replies_that_do_not_answer_change_nothing() {
    let checkers = checkers();
    let mut engine = engine(&checkers, 1);
    let mut run = SequentialRun::new(&engine, BTreeSet::new());
    assert_eq!(run.pending(&engine), Request::Targets { group: 0 });
    run.answer(&mut engine, Reply::Analysed);
    run.answer(&mut engine, Reply::Where(Err(CheckerError::Run("odd".to_string()))));
    assert_eq!(run.pending(&engine), Request::Targets { group: 0 });
    assert!(run.outcome().is_err());
    let run = Run::new(&engine).answer(&mut engine, RunReply::Step(Reply::Analysed));
    assert_eq!(run.pending(&engine), RunRequest::Cache(CacheRequest::BuildSymbols { tag: 0 }));
}

#[test]
fn the_search_finds_what_can_be_done_in_parallel() {
    let checkers = checkers();
    let engine = engine(&checkers, 2);
    let mut search = ParallelSearch::new(&engine);
    while search.pending() != Request::Nothing {
        let reply = answer(&engine, search.pending());
        search.answer(&engine, reply);
    }
    let work = match search.outcome() {
        Ok(Ok(work)) => work,
        _ => panic!("the search failed"),
    };
    let light = |group: usize, checker: usize, function: u64, block: u64| Visit {
        group,
        member: 0,
        checker,
        place: Place::CallSite { function, block },
    };
    assert_eq!(
        work.items,
        vec![
            light(0, 0, 1, 5),
            light(0, 0, 2, 1),
            light(0, 0, 2, 3),
            light(3, 2, 2, 1),
            light(3, 2, 2, 3),
        ]
    );
    assert_eq!(work.processed_ids, BTreeSet::from([0, 2]));
}

#[test]
fn without_parallel_work_all_is_done_in_turn() {
    let checkers = vec![checker("heavy", DECOMPILER, vec![scope(ScopeKind::Calls, 1, "handle")])];
    let mut engine = engine(&checkers, 2);
    let no_dispatch = |engine: &Engine, run: &Run| -> RunReply {
        assert!(run.pending(engine) != RunRequest::Dispatch);
        assert!(run.work().is_empty());
        host(engine, run)
    };
    assert_eq!(found(drive(&mut engine, &no_dispatch)), vec![(0, 105), (0, 201), (0, 203)]);
}

#[test]
fn no_checkers_find_nothing() {
    let checkers = Vec::new();
    let mut one = engine(&checkers, 1);
    assert!(found(drive(&mut one, host)).is_empty());
    let mut other = engine(&checkers, 2);
    assert!(found(drive(&mut other, host)).is_empty());
}

fn fails_with(wanted: fn(&RunRequest) -> bool, reply: fn() -> RunReply, cpus: usize) -> String {
    let checkers = checkers();
    let mut engine = engine(&checkers, cpus);
    let failing = |engine: &Engine, run: &Run| -> RunReply {
        if wanted(&run.pending(engine)) {
            reply()
        } else {
            host(engine, run)
        }
    };
    match drive(&mut engine, failing) {
        Ok(_) => panic!("the error was lost"),
        Err(error) => error.message(),
    }
}

fn query() -> CheckerError {
    CheckerError::FunctionQuery("odd".to_string())
}

#[test]
fn the_first_error_ends_a_run() {
    for cpus in [1, 2] {
        assert_eq!(
            fails_with(
                |request| matches!(request, RunRequest::Cache(CacheRequest::BuildSymbols { .. })),
                || RunReply::Cache(CacheReply::Symbols(Err("none".to_string()))),
                cpus,
            ),
            "cannot load required signatures: none"
        );
        assert_eq!(
            fails_with(
                |request| matches!(request, RunRequest::Step(Request::Targets { .. })),
                || RunReply::Step(Reply::Targets(Err(query()))),
                cpus,
            ),
            "invalid query: odd"
        );
        assert_eq!(
            fails_with(
                |request| matches!(request, RunRequest::Step(Request::Where { .. })),
                || RunReply::Step(Reply::Where(Err(CheckerError::Run("where".to_string())))),
                cpus,
            ),
            "cannot run checker: where"
        );
        assert_eq!(
            fails_with(
                |request| matches!(request, RunRequest::Step(Request::Functions { .. })),
                || RunReply::Step(Reply::Functions(Err(query()))),
                cpus,
            ),
            "invalid query: odd"
        );
        assert_eq!(
            fails_with(
                |request| matches!(request, RunRequest::Step(Request::Context { .. })),
                || RunReply::Step(Reply::Context(Err(CheckerError::Load("state".to_string())))),
                cpus,
            ),
            "cannot parse and load checker: state"
        );
        assert_eq!(
            fails_with(
                |request| matches!(request, RunRequest::Step(Request::CreateDecompiler)),
                || RunReply::Step(Reply::Decompiler(Err("no decompiler".to_string()))),
                cpus,
            ),
            "no decompiler"
        );
        assert_eq!(
            fails_with(
                |request| matches!(request, RunRequest::Step(Request::ClearDecompiler)),
                || RunReply::Step(Reply::Decompiler(Err("stuck".to_string()))),
                cpus,
            ),
            "stuck"
        );
        assert_eq!(
            fails_with(
                |request| matches!(request, RunRequest::Step(Request::ConfigureDecompiler { .. })),
                || RunReply::Step(Reply::Configured(Err(CheckerError::decompiler_with(
                    "not set up".to_string()
                )))),
                cpus,
            ),
            "not set up"
        );
        assert_eq!(
            fails_with(
                |request| matches!(request, RunRequest::Step(Request::Invoke { .. })),
                || RunReply::Step(Reply::Invoked(Err(CheckerError::Run("handler".to_string())))),
                cpus,
            ),
            "cannot run checker: handler"
        );
    }
    assert_eq!(
        fails_with(
            |request| matches!(request, RunRequest::Dispatch),
            || RunReply::Dispatched(Err(CheckerError::Run("thread".to_string()))),
            2,
        ),
        "cannot run checker: thread"
    );
}

#[test]
fn handlers_that_fail_end_a_run() {
    let checkers = vec![checker("bad", 0, vec![scope(ScopeKind::Calls, 1, "fail")])];
    for cpus in [1, 2] {
        let mut engine = engine(&checkers, cpus);
        match drive(&mut engine, host) {
            Ok(_) => panic!("the error was lost"),
            Err(error) => assert_eq!(error.message(), "cannot run checker: failed"),
        }
    }
}

#[test]
fn results_of_unknown_or_repeated_visits_are_not_taken() {
    let checkers = checkers();
    let mut engine = engine(&checkers, 2);
    let mut run = Run::new(&engine);
    while run.pending(&engine) != RunRequest::Dispatch {
        let reply = host(&engine, &run);
        run = run.answer(&mut engine, reply);
    }
    assert_eq!(run.work().len(), 5);
    let result = CheckResult::new(1);
    let run = run.answer(
        &mut engine,
        RunReply::Dispatched(Ok(vec![WorkResult { item: 5, result }])),
    );
    assert_eq!(run.pending(&engine), RunRequest::Dispatch);
    let run = run.answer(
        &mut engine,
        RunReply::Dispatched(Ok(vec![WorkResult { item: 1, result }, WorkResult { item: 1, result }])),
    );
    assert_eq!(run.pending(&engine), RunRequest::Dispatch);
    assert!(!run.is_searching());
    let run = run.answer(
        &mut engine,
        RunReply::Dispatched(Ok(vec![WorkResult { item: 4, result }, WorkResult { item: 0, result }])),
    );
    assert_eq!(run.pending(&engine), RunRequest::Step(Request::Targets { group: 0 }));
    assert!(run.outcome().is_err());
}

#[test]
fn states_that_cannot_be_made_end_parallel_visits() {
    let checkers = checkers();
    let engine = engine(&checkers, 2);
    let visit = Visit {
        group: 0,
        member: 0,
        checker: 0,
        place: Place::CallSite { function: 1, block: 5 },
    };
    assert_eq!(engine.handler_of(&visit), "handle");
    let refuse = |_: Lua| -> Step { Err("no types".to_string()) };
    let res = engine.execute_calls_work_item(
        &visit,
        Lua::new(),
        &PRELUDES,
        Steps { types: refuse, run: run_code, library: run_code, loader: no_modules },
        |_: &Lua, _: &str| -> Result<Option<usize>, String> { panic!("run without a state") },
    );
    match res {
        Err(error) => assert_eq!(error.message(), "cannot parse and load checker: no types"),
        Ok(_) => panic!("the error was lost"),
    }
    let context = made(&engine, 0);
    assert!(context.is_ok());
}
