use summon::builtins::{BuiltinName, SummonBuiltin, SummonMember, BUILTIN_COUNT};
use summon::circuit_signal::{CircuitSignalData, SignalArena};
use summon::diagnostics_by_path::{
    file_report, level_text, pos_to_line_col, Diagnostic, DiagnosticLevel, DiagnosticsByPath,
    ResolvedPath, Span,
};
use summon::ops::VsType;
use summon::summon_io::{HostErrorKind, IoMethod, SummonIO};
use summon::vs_value::{ObjectKind, SignalHandle, Val};

fn text(s: &str) -> Val {
    Val::String(s.to_string())
}

fn number_type() -> Val {
    Val::Object(ObjectKind::NumberType)
}

#[test]
fn declaring_inputs() {
    let mut arena = SignalArena::new();
    let mut io = SummonIO::new(vec![]);
    let x = io.input(&mut arena, &vec![text("alice"), text("x"), number_type()]).unwrap();
    assert_eq!(x, Val::Signal(SignalHandle { id: 0, type_: VsType::Number }));
    assert_eq!(arena.get(0).data, CircuitSignalData::Input);
    let y = io.input(&mut arena, &vec![text("bob"), text("y"), number_type()]).unwrap();
    let z = io.input(&mut arena, &vec![text("alice"), text("z"), number_type()]).unwrap();
    assert_eq!(y.as_signal().unwrap().id, 1);
    assert_eq!(z.as_signal().unwrap().id, 2);
    assert_eq!(io.input_ids(), vec![0, 1, 2]);
    assert_eq!(io.data.parties, vec!["alice".to_string(), "bob".to_string()]);
    assert_eq!(io.data.inputs[1].from, "bob");
    assert_eq!(io.data.inputs[1].name, "y");
    assert_eq!(io.data.inputs[1].id, 1);
}

#[test]
fn a_taken_input_name_is_an_error() {
    let mut arena = SignalArena::new();
    let mut io = SummonIO::new(vec![]);
    io.input(&mut arena, &vec![text("alice"), text("x"), number_type()]).unwrap();
    let err = io.input(&mut arena, &vec![text("bob"), text("x"), number_type()]).unwrap_err();
    assert_eq!(err.kind, HostErrorKind::Error);
    assert_eq!(err.message, "Can't use existing input name: \"x\"");
    assert_eq!(io.data.inputs.len(), 1);
    assert_eq!(io.data.parties, vec!["alice".to_string()]);
    // the signal for the input that was refused was made all the same
    assert_eq!(arena.len(), 2);
    let next = io.input(&mut arena, &vec![text("bob"), text("y"), number_type()]).unwrap();
    assert_eq!(next.as_signal().unwrap().id, 2);
}

#[test]
fn arguments_of_input_are_looked_at_in_order() {
    let mut arena = SignalArena::new();
    let mut io = SummonIO::new(vec![]);
    let err = io.input(&mut arena, &vec![text("alice"), text("x")]).unwrap_err();
    assert_eq!(err.kind, HostErrorKind::TypeError);
    assert_eq!(err.message, "Params (from, name, type) not provided");
    let err = io.input(&mut arena, &vec![Val::Number(1), Val::Number(2), Val::Null]).unwrap_err();
    assert_eq!(err.kind, HostErrorKind::TypeError);
    assert_eq!(err.message, "Expected `from` to be a string");
    let err = io.input(&mut arena, &vec![text("a"), Val::Number(2), Val::Null]).unwrap_err();
    assert_eq!(err.kind, HostErrorKind::TypeError);
    assert_eq!(err.message, "Expected `name` to be a string");
    let other = Val::Object(ObjectKind::Other);
    let err = io.input(&mut arena, &vec![text("a"), text("x"), other]).unwrap_err();
    assert_eq!(err.kind, HostErrorKind::InternalError);
    assert_eq!(
        err.message,
        "Not implemented yet: type passed to io.input was something other than summon.number()"
    );
    assert_eq!(arena.len(), 0);
    assert!(io.data.inputs.is_empty());
}

#[test]
fn public_inputs() {
    let mut io = SummonIO::new(vec![
        ("rounds".to_string(), Val::Number(3)),
        ("limit".to_string(), Val::Number(10)),
        ("spare".to_string(), Val::Number(0)),
    ]);
    assert_eq!(io.input_public(&vec![text("limit"), number_type()]).unwrap(), Val::Number(10));
    assert_eq!(io.input_public(&vec![text("limit"), number_type()]).unwrap(), Val::Number(10));
    assert_eq!(io.data.public_inputs_used, vec!["limit".to_string()]);
    assert_eq!(io.unused_public_inputs(), vec!["rounds".to_string(), "spare".to_string()]);
    let err = io.input_public(&vec![text("limit")]).unwrap_err();
    assert_eq!(err.kind, HostErrorKind::TypeError);
    assert_eq!(err.message, "Params (name, type) not provided");
    let err = io.input_public(&vec![Val::Bool(true), number_type()]).unwrap_err();
    assert_eq!(err.message, "Expected `name` to be a string");
    let err = io.input_public(&vec![text("limit"), Val::Undefined]).unwrap_err();
    assert_eq!(err.kind, HostErrorKind::InternalError);
    assert_eq!(
        err.message,
        "Not implemented yet: type passed to io.publicInput was something other than summon.number()"
    );
}

#[test]
fn a_missing_public_input_fails_the_compilation() {
    let mut io = SummonIO::new(vec![]);
    let err = io.input_public(&vec![text("missing"), number_type()]).unwrap_err();
    assert_eq!(err.kind, HostErrorKind::Error);
    assert_eq!(err.message, "Missing public input: \"missing\"");
    assert!(err.message.contains("\"missing\""));
    let mut diagnostics = DiagnosticsByPath(vec![]);
    let diagnostic = Diagnostic::from_host_error(&err);
    assert_eq!(diagnostic.level, DiagnosticLevel::Error);
    diagnostics.add(&"main.ts".to_string(), diagnostic);
    assert!(diagnostics.has_errors());
    assert!(!diagnostics.has_internal_errors());
    assert_eq!(diagnostics.exit_code(), 1);
}

#[test]
fn outputs_for_one_party_are_not_to_be_had() {
    let io = SummonIO::new(vec![]);
    let err = io.output(&vec![text("alice"), text("z"), Val::Number(1)]).unwrap_err();
    assert_eq!(err.kind, HostErrorKind::InternalError);
    assert_eq!(err.message, "Not implemented yet: io.output");
    let err = io.output(&vec![text("alice"), text("z")]).unwrap_err();
    assert_eq!(err.kind, HostErrorKind::TypeError);
    assert_eq!(err.message, "Params (to, name, value) not provided");
    let err = io.output(&vec![Val::Array, text("z"), Val::Number(1)]).unwrap_err();
    assert_eq!(
        err.message,
        "Expected `to` to be a string (not implemented yet: array of strings)"
    );
    let err = io.output(&vec![text("a"), Val::Null, Val::Number(1)]).unwrap_err();
    assert_eq!(err.message, "Expected `name` to be a string");
    let err = io.output(&vec![text("a"), text("z"), Val::Bool(true)]).unwrap_err();
    assert_eq!(err.kind, HostErrorKind::TypeError);
    assert_eq!(err.message, "Non-number outputs are not yet supported");
}

#[test]
fn public_outputs() {
    let mut io = SummonIO::new(vec![]);
    assert_eq!(io.output_public(&vec![text("a"), Val::Number(1)]).unwrap(), Val::Undefined);
    io.output_public(&vec![text("b"), Val::Number(2)]).unwrap();
    io.output_public(&vec![text("a"), Val::Number(3)]).unwrap();
    assert_eq!(
        io.data.public_outputs,
        vec![("a".to_string(), Val::Number(3)), ("b".to_string(), Val::Number(2))]
    );
    let err = io.output_public(&vec![text("a")]).unwrap_err();
    assert_eq!(err.kind, HostErrorKind::TypeError);
    assert_eq!(err.message, "Params (name, value) not provided");
    let err = io.output_public(&vec![Val::Number(1), Val::Number(1)]).unwrap_err();
    assert_eq!(err.message, "Expected name to be a string");
    let err = io.output_public(&vec![text("c"), Val::Bool(true)]).unwrap_err();
    assert_eq!(err.kind, HostErrorKind::TypeError);
    assert_eq!(err.message, "Non-number outputs are not yet supported");
    let signal = Val::Signal(SignalHandle { id: 0, type_: VsType::Bool });
    assert!(io.output_public(&vec![text("c"), signal]).is_err());
    assert_eq!(io.data.public_outputs.len(), 2);
}

#[test]
fn parties_without_inputs() {
    let mut io = SummonIO::new(vec![]);
    assert_eq!(io.add_party(&vec![text("carol")]).unwrap(), Val::Undefined);
    io.add_party(&vec![text("dave")]).unwrap();
    io.add_party(&vec![text("carol")]).unwrap();
    assert_eq!(io.data.parties, vec!["carol".to_string(), "dave".to_string()]);
    let err = io.add_party(&vec![]).unwrap_err();
    assert_eq!(err.kind, HostErrorKind::TypeError);
    assert_eq!(err.message, "Params (party) not provided");
    let err = io.add_party(&vec![Val::Number(1)]).unwrap_err();
    assert_eq!(err.message, "Expected `party` to be a string");
    io.data.add_party("erin".to_string());
    io.data.add_party("dave".to_string());
    assert_eq!(io.data.parties.len(), 3);
}

#[test]
fn operations_of_the_object() {
    assert_eq!(SummonIO::member(&text("input")), Some(IoMethod::Input));
    assert_eq!(SummonIO::member(&text("inputPublic")), Some(IoMethod::InputPublic));
    assert_eq!(SummonIO::member(&text("output")), Some(IoMethod::Output));
    assert_eq!(SummonIO::member(&text("outputPublic")), Some(IoMethod::OutputPublic));
    assert_eq!(SummonIO::member(&text("addParty")), Some(IoMethod::AddParty));
    assert_eq!(SummonIO::member(&text("inputs")), None);
    assert_eq!(SummonIO::member(&Val::Number(1)), None);
    assert!(SummonIO::has(&text("input")));
    assert!(!SummonIO::has(&text("Input")));
}

#[test]
fn the_summon_object() {
    assert_eq!(SummonBuiltin::bo_name(), "summon");
    assert_eq!(SummonBuiltin::bo_sub("isSignal"), Some(SummonMember::IsSignal));
    assert_eq!(SummonBuiltin::bo_sub("number"), Some(SummonMember::Number));
    assert_eq!(SummonBuiltin::bo_sub("string"), None);
    assert_eq!(SummonBuiltin::number(&vec![]).unwrap(), number_type());
    let err = SummonBuiltin::number(&vec![Val::Number(1)]).unwrap_err();
    assert_eq!(err.kind, HostErrorKind::TypeError);
    assert_eq!(err.message, "Unexpected arguments");
    let signal = Val::Signal(SignalHandle { id: 0, type_: VsType::Number });
    assert_eq!(SummonBuiltin::is_signal(&vec![signal, Val::Number(1)]), Val::Bool(true));
    assert_eq!(SummonBuiltin::is_signal(&vec![Val::Number(1)]), Val::Bool(false));
    assert_eq!(SummonBuiltin::is_signal(&vec![]), Val::Bool(false));
}

#[test]
fn codes_of_the_builtin_names() {
    assert_eq!(BuiltinName::Debug.to_code(), 0);
    assert_eq!(BuiltinName::isFinite.to_code(), 6);
    assert_eq!(BuiltinName::InternalError.to_code(), 13);
    assert_eq!(BuiltinName::summon.to_code(), 18);
    assert_eq!(BUILTIN_COUNT, 19);
    for code in 0..BUILTIN_COUNT {
        assert_eq!(BuiltinName::from_code(code).unwrap().to_code(), code);
    }
    assert_eq!(BuiltinName::from_code(19), None);
    assert_eq!(BuiltinName::parseInt.text(), "parseInt");
    assert_eq!(BuiltinName::SymbolIterator.text(), "SymbolIterator");
}

fn diagnostic(level: DiagnosticLevel) -> Diagnostic {
    Diagnostic { level, message: "m".to_string(), span: Span { lo: 0, hi: 0 } }
}

#[test]
fn errors_among_diagnostics() {
    let mut d = DiagnosticsByPath(vec![]);
    assert!(!d.has_errors());
    assert!(!d.has_internal_errors());
    d.add(&"a.ts".to_string(), diagnostic(DiagnosticLevel::Lint));
    d.add(&"b.ts".to_string(), diagnostic(DiagnosticLevel::CompilerDebug));
    assert!(!d.has_errors());
    assert_eq!(d.exit_code(), 0);
    d.add(&"a.ts".to_string(), diagnostic(DiagnosticLevel::Error));
    assert!(d.has_errors());
    assert!(!d.has_internal_errors());
    assert_eq!(d.0.len(), 2);
    assert_eq!(d.0[0].1.len(), 2);
    d.add(&"b.ts".to_string(), diagnostic(DiagnosticLevel::InternalError));
    assert!(d.has_internal_errors());
    assert_eq!(d.exit_code(), 1);
    let only_internal =
        DiagnosticsByPath(vec![(ResolvedPath { path: "x".to_string() },
            vec![diagnostic(DiagnosticLevel::InternalError)])]);
    assert!(only_internal.has_errors());
}

#[test]
fn lines_and_columns() {
    let text = "ab\ncd\n\nxyz";
    assert_eq!(pos_to_line_col(text, 0), (1, 1));
    assert_eq!(pos_to_line_col(text, 1), (1, 2));
    assert_eq!(pos_to_line_col(text, 2), (1, 3));
    assert_eq!(pos_to_line_col(text, 3), (2, 1));
    assert_eq!(pos_to_line_col(text, 6), (3, 1));
    assert_eq!(pos_to_line_col(text, 7), (4, 1));
    assert_eq!(pos_to_line_col(text, 9), (4, 3));
    assert_eq!(pos_to_line_col(text, 1000), (4, 4));
    assert_eq!(pos_to_line_col("", 5), (1, 1));
    assert_eq!(pos_to_line_col("é\nü", 2), (2, 1));
}

fn said(level: DiagnosticLevel, message: &str, lo: u32) -> Diagnostic {
    Diagnostic { level, message: message.to_string(), span: Span { lo, hi: lo } }
}

#[test]
fn the_report_of_a_file() {
    let text = "let a = 1;\nlet b = c;\n";
    let list = vec![
        said(DiagnosticLevel::Lint, "a is never read", 4),
        said(DiagnosticLevel::Error, "c is not defined", 19),
        said(DiagnosticLevel::InternalError, "lost track", 200),
        said(DiagnosticLevel::CompilerDebug, "done", 0),
    ];
    assert_eq!(
        file_report("src/main.ts", Some(text), &list),
        "src/main.ts:1:5: Lint: a is never read\n\
         src/main.ts:2:9: Error: c is not defined\n\
         src/main.ts:3:1: InternalError: lost track\n\
         src/main.ts:1:1: CompilerDebug: done\n\
         \nFailed with 2 error(s)\n"
    );
}

#[test]
fn the_report_of_a_text_without_a_file() {
    let list = vec![said(DiagnosticLevel::Error, "no such input", 7)];
    assert_eq!(
        file_report("(str)", None, &list),
        "(str):0:0: Error: no such input\n\nFailed with 1 error(s)\n"
    );
}

#[test]
fn a_report_without_errors_has_no_last_line() {
    let list = vec![
        said(DiagnosticLevel::Lint, "x", 0),
        said(DiagnosticLevel::CompilerDebug, "y", 1),
    ];
    assert_eq!(file_report("f", Some("ab"), &list), "f:1:1: Lint: x\nf:1:2: CompilerDebug: y\n");
    assert_eq!(file_report("f", Some("ab"), &vec![]), "");
}

#[test]
fn names_of_the_levels() {
    assert_eq!(level_text(DiagnosticLevel::Lint), "Lint");
    assert_eq!(level_text(DiagnosticLevel::Error), "Error");
    assert_eq!(level_text(DiagnosticLevel::InternalError), "InternalError");
    assert_eq!(level_text(DiagnosticLevel::CompilerDebug), "CompilerDebug");
}

#[test]
fn paths_that_name_a_file() {
    assert!(!ResolvedPath { path: "(str)".to_string() }.names_a_file());
    assert!(ResolvedPath { path: "(str).ts".to_string() }.names_a_file());
    assert!(ResolvedPath { path: "/tmp/a.ts".to_string() }.names_a_file());
    assert!(ResolvedPath { path: "".to_string() }.names_a_file());
}

#[test]
fn what_was_collected_is_sound() {
    let mut arena = SignalArena::new();
    let mut io = SummonIO::new(vec![]);
    assert!(io.is_sound(&arena));
    io.input(&mut arena, &vec![text("alice"), text("a"), number_type()]).unwrap();
    io.input(&mut arena, &vec![text("bob"), text("b"), number_type()]).unwrap();
    io.output_public(&vec![text("out"), Val::Number(3)]).unwrap();
    assert!(io.is_sound(&arena));

    // The signals of another run do not fit.
    assert!(!io.is_sound(&SignalArena::new()));

    let first = io.data.inputs[0].clone();
    io.data.inputs.push(first);
    assert!(!io.is_sound(&arena));
    io.data.inputs.pop();
    assert!(io.is_sound(&arena));

    io.data.inputs.swap(0, 1);
    assert!(!io.is_sound(&arena));
    io.data.inputs.swap(0, 1);

    io.data.parties.push("alice".to_string());
    assert!(!io.is_sound(&arena));
    io.data.parties.pop();

    io.data.parties.clear();
    assert!(!io.is_sound(&arena));
}
