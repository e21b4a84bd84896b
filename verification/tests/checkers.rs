use std::cell::RefCell;

use mlua::{Lua, LuaSerdeExt, ObjectLike, Table, Value};

use vulhunt_engine::checker::{
    CheckScopeProjectData, CheckerArch, Decoders, Globals, OneOrMany, Read,
};
use vulhunt_engine::context::{Preludes, Step, Steps};
use vulhunt_engine::extensions::DECOMPILER;
use vulhunt_engine::scope::ScopeKind;
use vulhunt_engine::signature::SignatureEntry;
use vulhunt_engine::{CheckScope, Checker, CheckerContext, CheckerError, CheckerExtensions};

const PRELUDE: &[u8] = b"order = 'prelude'";
const FUNCTIONAL: &[u8] =
    b"return setmetatable({}, { __call = function() order = order .. ' functional' end })";

const PRELUDES: Preludes<'static> = Preludes { prelude: PRELUDE, functional: FUNCTIONAL };

const RULE: &str = "
    order = order .. ' rule'
    name = 'CVE'
    author = 'someone'
    platform = 'posix'
    architecture = 'arm'
    scopes = { 'first', 'second' }
";

fn texts(vm: &Lua, key: &str) -> Read<OneOrMany<String>> {
    match vm.globals().get::<Value>(key) {
        Ok(Value::Nil) => Ok(None),
        Ok(Value::String(text)) => Ok(Some(OneOrMany::One(text.to_str().unwrap().to_string()))),
        Ok(Value::Table(list)) => Ok(Some(OneOrMany::Many(
            list.sequence_values::<String>().collect::<Result<_, _>>().unwrap(),
        ))),
        _ => Err(format!("bad `{key}`")),
    }
}

fn each<T>(read: Read<OneOrMany<String>>, make: fn(String) -> T) -> Read<OneOrMany<T>> {
    read.map(|list| {
        list.map(|list| match list {
            OneOrMany::One(text) => OneOrMany::One(make(text)),
            OneOrMany::Many(texts) => OneOrMany::Many(texts.into_iter().map(make).collect()),
        })
    })
}

fn arch(name: String) -> CheckerArch {
    CheckerArch { name }
}

fn entry(text: String) -> SignatureEntry {
    SignatureEntry { key: text.into_bytes() }
}

fn scope(with: String) -> CheckScope {
    CheckScope { kind: ScopeKind::ProjectWith, id: 7, with }
}

fn architecture(vm: &Lua) -> Read<OneOrMany<CheckerArch>> {
    each(texts(vm, "architecture"), arch)
}

fn signatures(vm: &Lua) -> Read<OneOrMany<SignatureEntry>> {
    each(texts(vm, "signatures"), entry)
}

fn extensions(vm: &Lua) -> Read<OneOrMany<String>> {
    texts(vm, "extensions")
}

fn extension(text: &str) -> Option<CheckerExtensions> {
    match text {
        "DECOMPILER" => Some(CheckerExtensions { bits: DECOMPILER }),
        _ => None,
    }
}

fn scopes(vm: &Lua) -> Read<OneOrMany<CheckScope>> {
    each(texts(vm, "scopes"), scope)
}

fn conditions(vm: &Lua) -> Read<CheckScopeProjectData> {
    match vm.globals().get::<Option<usize>>("conditions") {
        Ok(None) => Ok(None),
        Ok(handle) => Ok(Some(CheckScopeProjectData { handle })),
        Err(_) => Err("bad `conditions`".to_string()),
    }
}

fn text(vm: &Lua, key: &str) -> Read<String> {
    vm.globals().get::<Option<String>>(key).map_err(|error| error.to_string())
}

fn types(vm: &Lua) -> Read<String> {
    vm.globals()
        .get::<Value>("types")
        .and_then(|value| vm.from_value::<Option<String>>(value))
        .map_err(|error| error.to_string())
}

fn handed_back(vm: Lua, outcome: mlua::Result<()>) -> Step {
    match outcome {
        Ok(()) => Ok(vm),
        Err(error) => Err(error.to_string()),
    }
}

fn known_types(vm: Lua) -> Step {
    let outcome = vm.globals().set("address", 1);
    handed_back(vm, outcome)
}

fn run(vm: Lua, name: &str, code: &[u8]) -> Step {
    let outcome = vm.load(code).set_name(name).exec();
    handed_back(vm, outcome)
}

fn library(vm: Lua, name: &str, code: &[u8]) -> Step {
    let outcome =
        vm.load(code).set_name(name).call::<Table>(()).and_then(|table| table.call::<()>(()));
    handed_back(vm, outcome)
}

fn loader(vm: Lua, dir: Option<&str>) -> Step {
    match dir {
        Some("nowhere") => Err("no such directory".to_string()),
        _ => {
            let outcome = vm.globals().set("modules", dir);
            handed_back(vm, outcome)
        }
    }
}

fn context_of(
    checker: &Checker,
    dir: Option<&str>,
    preludes: &Preludes,
) -> Result<CheckerContext, CheckerError> {
    let steps = Steps { types: known_types, run, library, loader };
    CheckerContext::from_checker(checker, Lua::new(), dir, preludes, steps)
}

fn load_in(script: Result<String, CheckerError>, dir: Option<&str>) -> Result<Checker, CheckerError> {
    Checker::from_str(
        Lua::new(),
        "rule.vh",
        script,
        dir,
        &PRELUDES,
        Steps { types: known_types, run, library, loader },
        Decoders {
            text,
            architecture,
            signatures,
            types,
            extensions,
            extension,
            scopes,
            conditions,
        },
    )
}

fn load(script: &str) -> Result<Checker, CheckerError> {
    load_in(Ok(script.to_string()), None)
}

fn message(res: Result<Checker, CheckerError>) -> String {
    match res {
        Ok(_) => panic!("the rule was taken"),
        Err(error) => error.message(),
    }
}

fn taken<T>(res: Result<T, CheckerError>) -> T {
    match res {
        Ok(value) => value,
        Err(error) => panic!("{}", error.message()),
    }
}

#[test]
fn a_rule_with_all_it_needs_is_taken() {
    let checker = taken(load(RULE));
    assert_eq!(checker.name(), "CVE");
    assert_eq!(checker.author(), "someone");
    assert_eq!(checker.platform(), "posix");
    assert_eq!(checker.architecture().len(), 1);
    assert_eq!(checker.architecture()[0].name, "arm");
    assert_eq!(checker.scopes().len(), 2);
    assert_eq!(checker.scopes()[1].with, "second");
    assert!(checker.signatures().is_empty());
    assert!(checker.signature_arch_tags().is_empty());
    assert_eq!(checker.types(), None);
    assert_eq!(checker.extensions(), CheckerExtensions::empty());
    assert_eq!(checker.conditions().handle, None);
}

#[test]
fn a_rule_may_give_more() {
    let script = format!(
        "{RULE}
        architecture = {{ 'arm', 'x86' }}
        signatures = {{ 'zlib', 'curl' }}
        types = 'posix.til'
        extensions = 'decompiler'
        conditions = 3"
    );
    let mut checker = taken(load(&script));
    assert_eq!(checker.architecture()[1].name, "x86");
    assert_eq!(checker.signatures()[0].key, b"curl".to_vec());
    assert_eq!(checker.signatures()[1].key, b"zlib".to_vec());
    assert_eq!(checker.types(), Some("posix.til"));
    assert!(checker.extensions().requires_decompiler());
    assert_eq!(checker.conditions().handle, Some(3));
    checker.signature_arch_tags_mut().insert(1, 44);
    assert_eq!(checker.signature_arch_tags().get(&1), Some(&44));
}

#[test]
fn a_number_may_stand_for_a_text() {
    let checker = taken(load(&format!("{RULE}\nname = 12")));
    assert_eq!(checker.name(), "12");
}

#[test]
fn a_number_is_no_type_library() {
    let shown = message(load(&format!("{RULE}\ntypes = 12")));
    assert!(shown.starts_with("cannot parse and load checker: "), "{shown}");
}

#[test]
fn globals_that_are_missing_are_named() {
    for field in ["name", "author", "platform", "architecture", "scopes"] {
        assert_eq!(
            message(load(&format!("{RULE}\n{field} = nil"))),
            format!("malformed rule: missing `{field}`")
        );
    }
}

#[test]
fn lists_that_are_empty_are_named() {
    for field in ["architecture", "scopes"] {
        assert_eq!(
            message(load(&format!("{RULE}\n{field} = {{}}"))),
            format!("malformed rule: no `{field}` specified")
        );
    }
}

#[test]
fn globals_that_cannot_be_read_are_errors() {
    for field in ["architecture", "signatures", "extensions", "scopes"] {
        assert_eq!(
            message(load(&format!("{RULE}\n{field} = true"))),
            format!("cannot parse and load checker: bad `{field}`")
        );
    }
    assert_eq!(
        message(load(&format!("{RULE}\nconditions = {{}}"))),
        "cannot parse and load checker: bad `conditions`"
    );
    for field in ["name", "author", "platform", "types"] {
        let shown = message(load(&format!("{RULE}\n{field} = {{}}")));
        assert!(shown.starts_with("cannot parse and load checker: "), "{shown}");
    }
}

#[test]
fn an_unknown_extension_is_an_error() {
    assert_eq!(
        message(load(&format!("{RULE}\nextensions = {{ 'decompiler', 'magic' }}"))),
        "malformed rule: unsupported language extension `MAGIC`"
    );
}

#[test]
fn the_first_error_counts() {
    assert_eq!(
        message(load(&format!("{RULE}\nauthor = nil; scopes = nil; extensions = 'magic'"))),
        "malformed rule: missing `author`"
    );
    assert_eq!(
        message(load(&format!("{RULE}\nscopes = nil; extensions = 'magic'"))),
        "malformed rule: unsupported language extension `MAGIC`"
    );
}

#[test]
fn scripts_that_cannot_be_preprocessed_are_errors() {
    assert_eq!(
        message(load_in(Err(CheckerError::Preprocess("[]".to_string())), None)),
        "cannot preprocess rule: []"
    );
}

#[test]
fn code_that_fails_is_an_error() {
    let shown = message(load("error('broken')"));
    assert!(shown.starts_with("cannot parse and load checker: "), "{shown}");
    assert!(shown.contains("broken"), "{shown}");
    assert!(shown.contains("rule.vh"), "{shown}");
}

#[test]
fn a_module_loader_that_fails_is_an_error() {
    assert_eq!(
        message(load_in(Ok(RULE.to_string()), Some("nowhere"))),
        "cannot register module loader: no such directory"
    );
}

#[test]
fn states_are_prepared_in_order() {
    let checker = taken(load(RULE));
    let context = taken(context_of(&checker, Some("modules/dir"), &PRELUDES));
    let globals = context.vm().globals();
    assert_eq!(globals.get::<String>("order").unwrap(), "prelude functional rule");
    assert_eq!(globals.get::<String>("modules").unwrap(), "modules/dir");
    assert_eq!(globals.get::<i64>("address").unwrap(), 1);
}

#[test]
fn preludes_that_fail_are_errors() {
    let checker = taken(load(RULE));
    let broken = Preludes { prelude: b"(", functional: FUNCTIONAL };
    let res = context_of(&checker, None, &broken);
    assert!(matches!(res, Err(CheckerError::Load(_))));
    let no_table = Preludes { prelude: PRELUDE, functional: b"return 1" };
    let res = context_of(&checker, None, &no_table);
    assert!(matches!(res, Err(CheckerError::Load(_))));
    let failing = Preludes {
        prelude: PRELUDE,
        functional: b"return setmetatable({}, { __call = function() error('late') end })",
    };
    let res = context_of(&checker, None, &failing);
    match res {
        Err(error) => assert!(error.message().contains("late")),
        Ok(_) => panic!("a broken prelude was taken"),
    }
}

#[test]
fn types_that_cannot_be_made_known_are_errors() {
    let checker = taken(load(RULE));
    let refuse = |_: Lua| -> Step { Err("no types".to_string()) };
    let steps = Steps { types: refuse, run, library, loader };
    let res = checker.context(Lua::new(), None, &PRELUDES, steps);
    match res {
        Err(error) => assert_eq!(error.message(), "cannot parse and load checker: no types"),
        Ok(_) => panic!("a state without types was taken"),
    }
}

#[test]
fn handlers_report_what_they_find() {
    let checker = taken(load(&format!("{RULE}\nfunction hit() return 5 end")));
    let context = taken(context_of(&checker, None, &PRELUDES));
    let call = |vm: &Lua, handler: &str| -> Result<Option<usize>, String> {
        vm.globals()
            .get::<mlua::Function>(handler)
            .and_then(|function| function.call::<Option<usize>>(()))
            .map_err(|_| "no such handler".to_string())
    };
    let found = taken(context.calls("hit", call)).unwrap();
    assert_eq!(found.finding, 5);
    assert_eq!(found.rule, None);
    assert_eq!(taken(context.function_with("hit", call)).unwrap().finding, 5);
    assert_eq!(taken(context.project_with("hit", call)).unwrap().finding, 5);
    assert!(taken(context.calls("print", call)).is_none());
    match context.project_with("absent", call) {
        Err(error) => assert_eq!(error.message(), "cannot run checker: no such handler"),
        Ok(_) => panic!("a handler that is not there was run"),
    }
}

#[test]
fn code_is_run_once_in_the_state_returned() {
    let globals = given("t");
    let code = b"vh_probe = (vh_probe or 0) + 1".to_vec();
    let checker = taken(Checker::from_reads(code, globals));
    let context = taken(context_of(&checker, None, &PRELUDES));
    assert_eq!(context.vm().globals().get::<i64>("vh_probe").unwrap(), 1);
}

#[test]
fn a_step_that_fails_is_the_last() {
    let checker = taken(Checker::from_reads(b"code".to_vec(), given("t")));
    for failing in 0..5 {
        let taken_steps = RefCell::new(Vec::new());
        let step = |vm: Lua, what: &str| -> Step {
            taken_steps.borrow_mut().push(what.to_string());
            if taken_steps.borrow().len() == failing + 1 {
                Err(what.to_string())
            } else {
                Ok(vm)
            }
        };
        let steps = Steps {
            types: |vm: Lua| step(vm, "types"),
            run: |vm: Lua, name: &str, _: &[u8]| step(vm, name),
            library: |vm: Lua, name: &str, _: &[u8]| step(vm, name),
            loader: |vm: Lua, _: Option<&str>| step(vm, "loader"),
        };
        let res = checker.context(Lua::new(), None, &PRELUDES, steps);
        let all = ["types", "bias_core::prelude", "lua::functional", "loader", "t"];
        match res {
            Ok(_) => panic!("a failure was lost"),
            Err(CheckerError::ModuleLoader(text)) => {
                assert_eq!(failing, 3);
                assert_eq!(text, all[failing]);
            }
            Err(CheckerError::Load(text)) => {
                assert_ne!(failing, 3);
                assert_eq!(text, all[failing]);
            }
            Err(error) => panic!("{}", error.message()),
        }
        assert_eq!(taken_steps.into_inner(), all[..failing + 1].to_vec());
    }
}

#[test]
fn globals_are_read_after_the_script_has_run() {
    let checker = taken(load(&format!("{RULE}\nname = order")));
    assert_eq!(checker.name(), "prelude functional rule");
}

fn given(name: &str) -> Globals {
    Globals {
        name: Ok(Some(name.to_string())),
        author: Ok(Some("someone".to_string())),
        platform: Ok(Some("posix".to_string())),
        architecture: Ok(Some(OneOrMany::One(arch("arm".to_string())))),
        signatures: Ok(None),
        types: Ok(None),
        extensions: Ok(None),
        resolved: Ok(CheckerExtensions { bits: DECOMPILER }),
        scopes: Ok(Some(OneOrMany::One(scope("only".to_string())))),
        conditions: Ok(None),
    }
}

#[test]
fn checkers_are_made_of_what_was_read() {
    let checker = taken(Checker::from_reads(b"code".to_vec(), given("n")));
    assert_eq!(checker.name(), "n");
    assert!(checker.extensions().requires_decompiler());
    assert_eq!(checker.scopes()[0].with, "only");
    let unread = || "unread".to_string();
    let shown = |globals: Globals| message(Checker::from_reads(Vec::new(), globals));
    let load_error = "cannot parse and load checker: unread";
    assert_eq!(shown(Globals { name: Err(unread()), ..given("n") }), load_error);
    assert_eq!(shown(Globals { author: Err(unread()), ..given("n") }), load_error);
    assert_eq!(shown(Globals { platform: Err(unread()), ..given("n") }), load_error);
    assert_eq!(shown(Globals { architecture: Err(unread()), ..given("n") }), load_error);
    assert_eq!(shown(Globals { signatures: Err(unread()), ..given("n") }), load_error);
    assert_eq!(shown(Globals { types: Err(unread()), ..given("n") }), load_error);
    assert_eq!(shown(Globals { extensions: Err(unread()), ..given("n") }), load_error);
    assert_eq!(shown(Globals { scopes: Err(unread()), ..given("n") }), load_error);
    assert_eq!(shown(Globals { conditions: Err(unread()), ..given("n") }), load_error);
    assert_eq!(
        shown(Globals {
            resolved: Err(CheckerError::malformed_with("odd".to_string())),
            ..given("n")
        }),
        "malformed rule: odd"
    );
    assert_eq!(shown(Globals { name: Ok(None), ..given("n") }), "malformed rule: missing `name`");
}
