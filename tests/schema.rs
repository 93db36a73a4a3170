use badargs::{CliArg, Schema, SchemaCommand, SchemaError, SchemaKind};

struct OutFile;

impl CliArg for OutFile {
    type Content = String;

    fn long() -> &'static str {
        "output"
    }

    fn short() -> Option<char> {
        Some('o')
    }
}

struct Force;

impl CliArg for Force {
    type Content = bool;

    fn long() -> &'static str {
        "force"
    }

    fn short() -> Option<char> {
        Some('f')
    }
}

struct SetUpstream;

impl CliArg for SetUpstream {
    type Content = String;

    fn long() -> &'static str {
        "set-upstream"
    }

    fn short() -> Option<char> {
        None
    }
}

struct OutFile2;

impl CliArg for OutFile2 {
    type Content = String;

    fn long() -> &'static str {
        "output"
    }

    fn short() -> Option<char> {
        Some('o')
    }
}

struct Other;

impl CliArg for Other {
    type Content = usize;

    fn long() -> &'static str {
        "other"
    }

    fn short() -> Option<char> {
        Some('o')
    }
}

fn out_file() -> SchemaCommand {
    SchemaCommand { kind: SchemaKind::String, long: "output".to_string(), short: Some('o') }
}

fn force() -> SchemaCommand {
    SchemaCommand { kind: SchemaKind::Bool, long: "force".to_string(), short: Some('f') }
}

fn set_upstream() -> SchemaCommand {
    SchemaCommand { kind: SchemaKind::String, long: "set-upstream".to_string(), short: None }
}

#[test]
fn one_command_schema() {
    let schema = Schema::create::<OutFile>().unwrap();
    let out_file = out_file();
    assert_eq!(schema.long("output"), Some(&out_file));
    assert_eq!(schema.short('o'), Some(&out_file));
    assert_eq!(schema.long("o"), None);
}

#[test]
fn two_command_schema() {
    let schema = Schema::create::<(OutFile, Force)>().unwrap();
    let out_file = out_file();
    let force = force();

    assert_eq!(schema.long("output"), Some(&out_file));
    assert_eq!(schema.short('o'), Some(&out_file));
    assert_eq!(schema.long("o"), None);

    assert_eq!(schema.long("force"), Some(&force));
    assert_eq!(schema.short('f'), Some(&force));
    assert_eq!(schema.long("f"), None);
}

#[test]
fn three_command_schema() {
    let schema = Schema::create::<(OutFile, (Force, SetUpstream))>().unwrap();
    let out_file = out_file();
    let force = force();
    let set_upstream = set_upstream();

    assert_eq!(schema.long("output"), Some(&out_file));
    assert_eq!(schema.short('o'), Some(&out_file));
    assert_eq!(schema.long("o"), None);

    assert_eq!(schema.long("force"), Some(&force));
    assert_eq!(schema.short('f'), Some(&force));
    assert_eq!(schema.long("f"), None);

    assert_eq!(schema.long("set-upstream"), Some(&set_upstream));
}

#[test]
fn double_error() {
    let schema = Schema::create::<(OutFile, OutFile2)>();
    assert!(schema.is_err());
}

#[test]
fn duplicate_long_name_is_reported() {
    let schema = Schema::create::<(OutFile, OutFile2)>();
    assert_eq!(schema, Err(SchemaError::DuplicateLongName("output".to_string())));
}

#[test]
fn duplicate_short_name_is_reported() {
    let schema = Schema::create::<(OutFile, Other)>();
    assert_eq!(schema, Err(SchemaError::DuplicateShortName('o')));
}

#[test]
fn long_name_is_checked_before_short_name() {
    let a = SchemaCommand::new(SchemaKind::Bool, "same", Some('x'));
    let b = SchemaCommand::new(SchemaKind::Bool, "same", Some('x'));
    assert_eq!(
        Schema::from_commands(&[a, b]),
        Err(SchemaError::DuplicateLongName("same".to_string()))
    );
}

#[test]
fn distinct_names_build() {
    let schema = Schema::from_commands(&[out_file(), force(), set_upstream()]).unwrap();
    assert_eq!(schema.arguments(), &[out_file(), force(), set_upstream()]);
    assert_eq!(schema.short('x'), None);
}

#[test]
fn empty_schema_builds() {
    let schema = Schema::from_commands(&[]).unwrap();
    assert!(schema.arguments().is_empty());
    assert_eq!(schema.long("output"), None);
}

#[test]
fn nesting_and_order_do_not_matter() {
    let a = Schema::create::<(OutFile, (Force, SetUpstream))>().unwrap();
    let b = Schema::create::<((SetUpstream, Force), OutFile)>().unwrap();
    for name in ["output", "force", "set-upstream", "missing"] {
        assert_eq!(a.long(name), b.long(name));
    }
    for c in ['o', 'f', 'x'] {
        assert_eq!(a.short(c), b.short(c));
    }
}

#[test]
fn failed_registration_leaves_schema_unchanged() {
    let mut schema = Schema::from_commands(&[out_file()]).unwrap();
    let clash = SchemaCommand::new(SchemaKind::Bool, "verbose", Some('o'));
    assert_eq!(schema.add_command(clash), Err(SchemaError::DuplicateShortName('o')));
    assert_eq!(schema.arguments(), &[out_file()]);
    assert_eq!(schema.add_command(force()), Ok(()));
    assert_eq!(schema.arguments(), &[out_file(), force()]);
}
