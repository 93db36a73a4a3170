use badargs::{ArgToken, BadArgs, CliArg, NumberLiteral, Schema};

struct Force;

impl CliArg for Force {
    type Content = bool;

    fn long() -> &'static str {
        "force"
    }

    fn short() -> Option<char> {
        Some('f')
    }
}

struct OutFile;

impl CliArg for OutFile {
    type Content = String;

    fn long() -> &'static str {
        "output"
    }

    fn short() -> Option<char> {
        Some('o')
    }
}

struct Scale;

impl CliArg for Scale {
    type Content = NumberLiteral;

    fn long() -> &'static str {
        "scale"
    }

    fn short() -> Option<char> {
        None
    }
}

#[test]
fn typed_access_through_declared_options() {
    let schema = Schema::create::<(Force, (OutFile, Scale))>().unwrap();
    let toks: Vec<ArgToken> = ["-o", "main.c", "in.c", "--scale", "-0.5"]
        .iter()
        .map(|s| ArgToken::text(s))
        .collect();
    let args = BadArgs::from_args(&schema, &toks).unwrap();
    assert_eq!(args.get::<Force>(), None);
    assert_eq!(args.get::<OutFile>(), Some(&"main.c".to_string()));
    assert_eq!(args.get::<Scale>().map(|n| n.as_str()), Some("-0.5"));
    assert_eq!(args.unnamed(), &["in.c"]);
}
