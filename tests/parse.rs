use badargs::{ArgToken, ArgValue, CallError, CliArgs, NumberLiteral, Schema, SchemaCommand, SchemaKind};

fn schema() -> Schema {
    Schema::from_commands(&[
        SchemaCommand::new(SchemaKind::String, "output", Some('o')),
        SchemaCommand::new(SchemaKind::String, "input", Some('i')),
        SchemaCommand::new(SchemaKind::UInt, "olevel", Some('l')),
        SchemaCommand::new(SchemaKind::IInt, "iq", Some('q')),
        SchemaCommand::new(SchemaKind::Bool, "force", Some('f')),
        SchemaCommand::new(SchemaKind::Bool, "gentle", Some('g')),
        SchemaCommand::new(SchemaKind::String, "set-upstream", None),
    ])
    .unwrap()
}

fn tokens(args: &str) -> Vec<ArgToken> {
    args.split_whitespace().map(ArgToken::text).collect()
}

fn parse_args(args: &str) -> Result<CliArgs, CallError> {
    CliArgs::from_args(&schema(), &tokens(args))
}

#[test]
fn single_short_flag() {
    let args = parse_args("-f").unwrap();
    assert_eq!(args.get::<bool>("force"), Some(&true))
}

#[test]
fn single_string_arg() {
    let args = parse_args("-i stdin").unwrap();
    assert_eq!(args.get::<String>("input"), Some(&"stdin".to_string()))
}

#[test]
fn two_unnamed() {
    let args = parse_args("hallo welt").unwrap();
    assert_eq!(args.unnamed(), &["hallo", "welt"]);
}

#[test]
fn short_arg_param_and_unnamed() {
    let args = parse_args("-i stdin uwu").unwrap();
    assert_eq!(args.unnamed(), &["uwu"]);
    assert_eq!(args.get::<String>("input"), Some(&"stdin".to_string()))
}

#[test]
fn short_numbers() {
    let args = parse_args("-q -5423 -l 235235").unwrap();
    assert_eq!(args.get::<isize>("iq"), Some(&-5423));
    assert_eq!(args.get::<usize>("olevel"), Some(&235235));
}

#[test]
fn combined_shorts() {
    let args = parse_args("-gf").unwrap();
    assert_eq!(args.get::<bool>("gentle"), Some(&true));
    assert_eq!(args.get::<bool>("force"), Some(&true));
}

#[test]
fn long_flags() {
    let args = parse_args("--force --gentle").unwrap();
    assert_eq!(args.get::<bool>("gentle"), Some(&true));
    assert_eq!(args.get::<bool>("force"), Some(&true));
}

#[test]
fn long_params() {
    let args = parse_args("--output main.c --iq 75").unwrap();
    assert_eq!(args.get::<isize>("iq"), Some(&75));
    assert_eq!(args.get::<String>("output"), Some(&"main.c".to_string()))
}

#[test]
fn many() {
    let args = parse_args("--output main.c --iq 75 hallo -fg random").unwrap();
    assert_eq!(args.unnamed(), &["hallo", "random"]);
    assert_eq!(args.get::<bool>("gentle"), Some(&true));
    assert_eq!(args.get::<bool>("force"), Some(&true));
    assert_eq!(args.get::<String>("output"), Some(&"main.c".to_string()));
    assert_eq!(args.get::<isize>("iq"), Some(&75));
    assert_eq!(args.get::<usize>("olevel"), None);
    assert_eq!(args.get::<String>("input"), None)
}

#[test]
fn combined_short_with_value_fails() {
    let err = parse_args("-fo main.c").unwrap_err();
    assert_eq!(err, CallError::CombinedShortWithValue("output".to_string()));
}

#[test]
fn value_taking_first_in_cluster_reads_next_token() {
    let args = parse_args("-of main.c").unwrap();
    assert_eq!(args.get::<String>("output"), Some(&"main.c".to_string()));
    assert_eq!(args.get::<bool>("force"), Some(&true));
    assert!(args.unnamed().is_empty());
}

#[test]
fn unknown_short_fails() {
    assert_eq!(parse_args("-x"), Err(CallError::ShortFlagNotFound('x')));
    assert_eq!(parse_args("-fx"), Err(CallError::ShortFlagNotFound('x')));
}

#[test]
fn unknown_long_fails() {
    assert_eq!(
        parse_args("hallo --verbose -f"),
        Err(CallError::LongFlagNotFound("verbose".to_string()))
    );
}

#[test]
fn help_is_requested() {
    assert_eq!(parse_args("-f --help"), Err(CallError::HelpPage));
}

#[test]
fn missing_value_fails() {
    assert_eq!(
        parse_args("--output"),
        Err(CallError::ExpectedValue("output".to_string(), SchemaKind::String))
    );
    assert_eq!(
        parse_args("-l"),
        Err(CallError::ExpectedValue("olevel".to_string(), SchemaKind::UInt))
    );
}

#[test]
fn bad_integers_fail() {
    assert_eq!(parse_args("--iq many"), Err(CallError::INan("iq".to_string())));
    assert_eq!(parse_args("-l -3"), Err(CallError::UNan("olevel".to_string())));
    assert_eq!(
        parse_args("-q 9223372036854775808"),
        Err(CallError::INan("iq".to_string()))
    );
}

#[test]
fn integer_bounds_are_accepted() {
    let args = parse_args("-q -9223372036854775808 -l 18446744073709551615").unwrap();
    assert_eq!(args.get::<isize>("iq"), Some(&isize::MIN));
    assert_eq!(args.get::<usize>("olevel"), Some(&usize::MAX));
    let args = parse_args("-q +12 -l +7").unwrap();
    assert_eq!(args.get::<isize>("iq"), Some(&12));
    assert_eq!(args.get::<usize>("olevel"), Some(&7));
}

#[test]
fn numbers_are_parsed() {
    let schema = Schema::from_commands(&[SchemaCommand::new(SchemaKind::Num, "ratio", Some('r'))])
        .unwrap();
    let args = CliArgs::from_args(&schema, &tokens("-r 2.5e-3")).unwrap();
    let n = args.get::<NumberLiteral>("ratio").unwrap();
    assert_eq!(n.as_str(), "2.5e-3");
    assert_eq!(n.as_str().parse::<f64>(), Ok(0.0025));
    assert_eq!(
        CliArgs::from_args(&schema, &tokens("--ratio 2.5.1")),
        Err(CallError::NNan("ratio".to_string()))
    );
}

#[test]
fn dash_alone_is_positional() {
    let args = parse_args("- -i x").unwrap();
    assert_eq!(args.unnamed(), &["-"]);
    assert_eq!(args.get::<String>("input"), Some(&"x".to_string()));
}

#[test]
fn invalid_text_fails() {
    let toks = vec![ArgToken::text("-f"), ArgToken::Undecodable(vec![0xff, 0xfe])];
    assert_eq!(CliArgs::from_args(&schema(), &toks), Err(CallError::InvalidUtf8(vec![0xff, 0xfe])));
    let toks = vec![ArgToken::text("-i"), ArgToken::Undecodable(vec![0x80])];
    assert_eq!(CliArgs::from_args(&schema(), &toks), Err(CallError::InvalidUtf8(vec![0x80])));
}

#[test]
fn later_value_wins() {
    let args = parse_args("-o a.c --output b.c").unwrap();
    assert_eq!(args.get::<String>("output"), Some(&"b.c".to_string()));
    assert_eq!(args.value("output"), Some(&ArgValue::Text("b.c".to_string())));
}

#[test]
fn absent_and_mistyped_lookups_are_none() {
    let args = parse_args("-f").unwrap();
    assert_eq!(args.get::<bool>("gentle"), None);
    assert_eq!(args.get::<String>("force"), None);
    assert_eq!(args.value("nothing"), None);
    assert_eq!(args.value("nothing"), None);
}

#[test]
fn optional_text_takes_a_value() {
    let schema =
        Schema::from_commands(&[SchemaCommand::new(SchemaKind::OptString, "name", None)]).unwrap();
    let args = CliArgs::from_args(&schema, &tokens("--name bob")).unwrap();
    assert_eq!(args.get::<String>("name"), Some(&"bob".to_string()));
}

#[test]
fn empty_input_parses_to_nothing() {
    let args = parse_args("").unwrap();
    assert!(args.unnamed().is_empty());
    assert_eq!(args.value("force"), None);
}

fn schema_with_value_taking_g() -> Schema {
    Schema::from_commands(&[
        SchemaCommand::new(SchemaKind::String, "gentle", Some('g')),
        SchemaCommand::new(SchemaKind::Bool, "force", Some('f')),
    ])
    .unwrap()
}

#[test]
fn value_taking_short_after_first_position_fails() {
    let schema = schema_with_value_taking_g();
    assert_eq!(
        CliArgs::from_args(&schema, &tokens("-fg")),
        Err(CallError::CombinedShortWithValue("gentle".to_string()))
    );
}

#[test]
fn value_taking_short_first_in_cluster() {
    let schema = schema_with_value_taking_g();
    assert_eq!(
        CliArgs::from_args(&schema, &tokens("-gf")),
        Err(CallError::ExpectedValue("gentle".to_string(), SchemaKind::String))
    );
    let args = CliArgs::from_args(&schema, &tokens("-gf soft")).unwrap();
    assert_eq!(args.get::<String>("gentle"), Some(&"soft".to_string()));
    assert_eq!(args.get::<bool>("force"), Some(&true));
}

#[test]
fn value_is_read_whatever_it_looks_like() {
    let args = parse_args("-o --force -i -").unwrap();
    assert_eq!(args.get::<String>("output"), Some(&"--force".to_string()));
    assert_eq!(args.get::<String>("input"), Some(&"-".to_string()));
    assert_eq!(args.get::<bool>("force"), None);
}

#[test]
fn double_dash_alone_is_positional() {
    let args = parse_args("-- -f").unwrap();
    assert_eq!(args.unnamed(), &["--"]);
    assert_eq!(args.get::<bool>("force"), Some(&true));
}
