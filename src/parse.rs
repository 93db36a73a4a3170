//! The parser engine: raw tokens are read left to right against a [`Schema`]
//! into a [`CliArgs`] store of option values and positional arguments.

use crate::number::{is_float_literal, is_float_text, isize_of, parse_isize, parse_usize, usize_of};
use crate::schema::{long_lookup, short_lookup, CommandView, Schema, SchemaKind};
use crate::value::{ArgToken, ArgValue, CliReturnValue, NumberLiteral, TokenView, ValueView};
use vstd::prelude::*;

verus! {

/// Why a token stream was rejected.
#[derive(Debug, Clone, PartialEq, Eq)]
pub enum CallError {
    /// No option has this short name.
    ShortFlagNotFound(char),
    /// No option has this long name.
    LongFlagNotFound(String),
    /// The option with this long name takes a value of this kind, but no token followed.
    ExpectedValue(String, SchemaKind),
    /// The value given to the option with this long name is not a signed integer in range.
    INan(String),
    /// The value given to the option with this long name is not an unsigned integer in range.
    UNan(String),
    /// The value given to the option with this long name is not a number.
    NNan(String),
    /// The option with this long name takes a value but stands after the first
    /// position of a short cluster.
    CombinedShortWithValue(String),
    /// A token held these bytes, which are not valid text.
    InvalidUtf8(Vec<u8>),
    /// The help page was asked for.
    HelpPage,
}

/// The mathematical value of a [`CallError`].
pub ghost enum CallFault {
    ShortFlagNotFound(char),
    LongFlagNotFound(Seq<char>),
    ExpectedValue(Seq<char>, SchemaKind),
    INan(Seq<char>),
    UNan(Seq<char>),
    NNan(Seq<char>),
    CombinedShortWithValue(Seq<char>),
    InvalidUtf8(Seq<u8>),
    HelpPage,
}

impl View for CallError {
    type V = CallFault;

    open spec fn view(&self) -> CallFault {
        match self {
            CallError::ShortFlagNotFound(c) => CallFault::ShortFlagNotFound(*c),
            CallError::LongFlagNotFound(n) => CallFault::LongFlagNotFound(n@),
            CallError::ExpectedValue(n, k) => CallFault::ExpectedValue(n@, *k),
            CallError::INan(n) => CallFault::INan(n@),
            CallError::UNan(n) => CallFault::UNan(n@),
            CallError::NNan(n) => CallFault::NNan(n@),
            CallError::CombinedShortWithValue(n) => CallFault::CombinedShortWithValue(n@),
            CallError::InvalidUtf8(b) => CallFault::InvalidUtf8(b@),
            CallError::HelpPage => CallFault::HelpPage,
        }
    }
}

#[derive(Debug, Clone, PartialEq, Eq)]
struct Entry {
    long: String,
    value: ArgValue,
}

/// The parse result: values stored by long name, and the positional tokens.
#[derive(Debug, Clone, PartialEq, Eq)]
pub struct CliArgs {
    entries: Vec<Entry>,
    unnamed: Vec<String>,
}

/// The mathematical value of a [`CliArgs`].
pub ghost struct ParsedView {
    /// The value last stored under each long name that was supplied.
    pub args: Map<Seq<char>, ValueView>,
    /// The positional tokens, in input order.
    pub unnamed: Seq<Seq<char>>,
}

/// The map of a list of writes in which a later write to a name wins.
pub open spec fn entries_map(s: Seq<(Seq<char>, ValueView)>) -> Map<Seq<char>, ValueView>
    decreases s.len(),
{
    if s.len() == 0 {
        Map::empty()
    } else {
        entries_map(s.drop_last()).insert(s.last().0, s.last().1)
    }
}

/// Writes after position `i` leave name `k` alone: it maps as after the first `i` writes.
proof fn lemma_entries_map_suffix(s: Seq<(Seq<char>, ValueView)>, i: int, k: Seq<char>)
    requires
        0 <= i <= s.len(),
        forall|j: int| i <= j < s.len() ==> (#[trigger] s[j]).0 != k,
    ensures
        entries_map(s).contains_key(k) == entries_map(s.take(i)).contains_key(k),
        entries_map(s)[k] == entries_map(s.take(i))[k],
    decreases s.len() - i,
{
    if i < s.len() {
        let d = s.drop_last();
        assert(s[s.len() - 1].0 != k);
        assert forall|j: int| i <= j < d.len() implies (#[trigger] d[j]).0 != k by {
            assert(d[j] == s[j]);
        }
        lemma_entries_map_suffix(d, i, k);
        assert(d.take(i) =~= s.take(i));
    } else {
        assert(s.take(i) =~= s);
    }
}

impl View for CliArgs {
    type V = ParsedView;

    closed spec fn view(&self) -> ParsedView {
        ParsedView {
            args: entries_map(self.entries@.map_values(|e: Entry| (e.long@, e.value@))),
            unnamed: self.unnamed@.map_values(|s: String| s@),
        }
    }
}

/// The state before any token is read.
pub open spec fn empty_parse() -> ParsedView {
    ParsedView { args: Map::empty(), unnamed: Seq::empty() }
}

/// `st` with `v` stored under `long`.
pub open spec fn store(st: ParsedView, long: Seq<char>, v: ValueView) -> ParsedView {
    ParsedView { args: st.args.insert(long, v), unnamed: st.unnamed }
}

/// The views of a token sequence.
pub open spec fn tokens_view(args: Seq<ArgToken>) -> Seq<TokenView> {
    args.map_values(|t: ArgToken| t@)
}

/// The value that text `t` gives an option of kind `kind` named `long`.
pub open spec fn value_of(kind: SchemaKind, long: Seq<char>, t: Seq<char>) -> Result<
    ValueView,
    CallFault,
> {
    match kind {
        SchemaKind::String | SchemaKind::OptString => Ok(ValueView::Text(t)),
        SchemaKind::Bool => Ok(ValueView::Flag(true)),
        SchemaKind::IInt => match isize_of(t) {
            Some(v) => Ok(ValueView::Signed(v)),
            None => Err(CallFault::INan(long)),
        },
        SchemaKind::UInt => match usize_of(t) {
            Some(v) => Ok(ValueView::Unsigned(v)),
            None => Err(CallFault::UNan(long)),
        },
        SchemaKind::Num => if is_float_text(t) {
            Ok(ValueView::Number(t))
        } else {
            Err(CallFault::NNan(long))
        },
    }
}

/// The option of kind `kind` named `long`, given by token `i`, stores its value:
/// `true` for a flag, else the value written by token `i + 1`. The flag of the
/// result tells whether token `i + 1` was read.
pub open spec fn apply_option(
    kind: SchemaKind,
    long: Seq<char>,
    toks: Seq<TokenView>,
    i: int,
    st: ParsedView,
) -> Result<(bool, ParsedView), CallFault> {
    if !kind.spec_takes_value() {
        Ok((false, store(st, long, ValueView::Flag(true))))
    } else if i + 1 >= toks.len() {
        Err(CallFault::ExpectedValue(long, kind))
    } else {
        match toks[i + 1] {
            TokenView::Undecodable(b) => Err(CallFault::InvalidUtf8(b)),
            TokenView::Text(t) => match value_of(kind, long, t) {
                Ok(v) => Ok((true, store(st, long, v))),
                Err(e) => Err(e),
            },
        }
    }
}

/// The short names after the first one in a cluster: each must be a flag, and is set.
pub open spec fn cluster_flags(schema: Seq<CommandView>, flags: Seq<char>, st: ParsedView) -> Result<
    ParsedView,
    CallFault,
>
    decreases flags.len(),
{
    if flags.len() == 0 {
        Ok(st)
    } else {
        match short_lookup(schema, flags[0]) {
            None => Err(CallFault::ShortFlagNotFound(flags[0])),
            Some(c) => if c.kind.spec_takes_value() {
                Err(CallFault::CombinedShortWithValue(c.long))
            } else {
                cluster_flags(schema, flags.skip(1), store(st, c.long, ValueView::Flag(true)))
            },
        }
    }
}

/// The long name that asks for the help page when no option has it.
pub open spec fn help_name() -> Seq<char> {
    seq!['h', 'e', 'l', 'p']
}

/// `--` followed by a name.
pub open spec fn is_long_token(t: Seq<char>) -> bool {
    t.len() > 2 && t[0] == '-' && t[1] == '-'
}

/// `-` followed by one or more short names.
pub open spec fn is_cluster_token(t: Seq<char>) -> bool {
    t.len() >= 2 && t[0] == '-' && t[1] != '-'
}

/// The effect of token `i` on state `st`; the flag tells whether token `i + 1`
/// was read as a value.
pub open spec fn token_effect(
    schema: Seq<CommandView>,
    toks: Seq<TokenView>,
    i: int,
    st: ParsedView,
) -> Result<(bool, ParsedView), CallFault> {
    match toks[i] {
        TokenView::Undecodable(b) => Err(CallFault::InvalidUtf8(b)),
        TokenView::Text(t) => if is_long_token(t) {
            let name = t.skip(2);
            match long_lookup(schema, name) {
                Some(c) => apply_option(c.kind, c.long, toks, i, st),
                None => if name == help_name() {
                    Err(CallFault::HelpPage)
                } else {
                    Err(CallFault::LongFlagNotFound(name))
                },
            }
        } else if is_cluster_token(t) {
            match short_lookup(schema, t[1]) {
                None => Err(CallFault::ShortFlagNotFound(t[1])),
                Some(c) => match apply_option(c.kind, c.long, toks, i, st) {
                    Ok((used, st2)) => match cluster_flags(schema, t.skip(2), st2) {
                        Ok(st3) => Ok((used, st3)),
                        Err(e) => Err(e),
                    },
                    Err(e) => Err(e),
                },
            }
        } else {
            Ok((false, ParsedView { args: st.args, unnamed: st.unnamed.push(t) }))
        }
    }
}

/// Reading the tokens from position `i` on, starting in state `st`.
pub open spec fn run(schema: Seq<CommandView>, toks: Seq<TokenView>, i: int, st: ParsedView) -> Result<
    ParsedView,
    CallFault,
>
    decreases toks.len() + 1 - i,
{
    if i >= toks.len() {
        Ok(st)
    } else {
        match token_effect(schema, toks, i, st) {
            Ok((used, st2)) => run(
                schema,
                toks,
                if used {
                    i + 2
                } else {
                    i + 1
                },
                st2,
            ),
            Err(e) => Err(e),
        }
    }
}

/// The result of parsing `toks` against the options `schema`.
pub open spec fn parse_tokens(schema: Seq<CommandView>, toks: Seq<TokenView>) -> Result<
    ParsedView,
    CallFault,
> {
    run(schema, toks, 0, empty_parse())
}

/// Whatever tokens follow, reading a token sequence `a` that parses
/// successfully from position `i` reaches the end of `a` in the same state.
proof fn lemma_run_extend(
    schema: Seq<CommandView>,
    a: Seq<TokenView>,
    b: Seq<TokenView>,
    i: int,
    st: ParsedView,
)
    requires
        0 <= i <= a.len(),
        run(schema, a, i, st) is Ok,
    ensures
        run(schema, a + b, i, st) == run(schema, a + b, a.len() as int, run(schema, a, i, st)->Ok_0),
    decreases a.len() + 1 - i,
{
    let ab = a + b;
    if i < a.len() {
        assert(ab[i] == a[i]);
        if i + 1 < a.len() {
            assert(ab[i + 1] == a[i + 1]);
        }
        assert(token_effect(schema, ab, i, st) == token_effect(schema, a, i, st));
        let (used, st2) = token_effect(schema, a, i, st)->Ok_0;
        let j = if used {
            i + 2
        } else {
            i + 1
        };
        lemma_run_extend(schema, a, b, j, st2);
    }
}

/// For each kind of option, the tokens that give it a value (the option
/// alone for a flag, else the option and the value text `v`) store exactly the
/// value that `v` denotes, under the option's long name, when `v` is a valid
/// value of that kind; otherwise parsing fails with the kind's error (`INan`,
/// `UNan` or `NNan`). This holds whether the option is named by its long name
/// or by its short name (unless that is `-`: `--` alone is a positional token).
pub proof fn lemma_value_round_trip(schema: Seq<CommandView>, c: CommandView, v: Seq<char>)
    requires
        crate::schema::distinct_names(schema),
        schema.contains(c),
        c.long.len() > 0,
    ensures
        ({
            let expected = match value_of(c.kind, c.long, v) {
                Ok(x) => Ok::<ParsedView, CallFault>(store(empty_parse(), c.long, x)),
                Err(e) => Err(e),
            };
            let value_tokens = if c.kind.spec_takes_value() {
                seq![TokenView::Text(v)]
            } else {
                Seq::empty()
            };
            &&& parse_tokens(schema, seq![TokenView::Text(seq!['-', '-'] + c.long)] + value_tokens)
                == expected
            &&& (c.short matches Some(x) ==> x != '-' ==> parse_tokens(
                schema,
                seq![TokenView::Text(seq!['-', x])] + value_tokens,
            ) == expected)
        }),
{
    crate::schema::lemma_lookup_distinct(schema, c);
    let value_tokens = if c.kind.spec_takes_value() {
        seq![TokenView::Text(v)]
    } else {
        Seq::<TokenView>::empty()
    };
    let t = seq!['-', '-'] + c.long;
    assert(t.skip(2) =~= c.long);
    let toks = seq![TokenView::Text(t)] + value_tokens;
    assert(toks[0] == TokenView::Text(t));
    if c.kind.spec_takes_value() {
        assert(toks[1] == TokenView::Text(v));
    }
    let used = c.kind.spec_takes_value();
    if let Ok(x) = value_of(c.kind, c.long, v) {
        let st = store(empty_parse(), c.long, x);
        assert(token_effect(schema, toks, 0, empty_parse()) == Ok::<(bool, ParsedView), CallFault>(
            (used, st),
        ));
        assert(run(schema, toks, if used { 2 } else { 1 }, st) == Ok::<ParsedView, CallFault>(st));
    }
    if c.short is Some && c.short->Some_0 != '-' {
        let x = c.short->Some_0;
        let u = seq!['-', x];
        let stoks = seq![TokenView::Text(u)] + value_tokens;
        assert(stoks[0] == TokenView::Text(u));
        if c.kind.spec_takes_value() {
            assert(stoks[1] == TokenView::Text(v));
        }
        assert(u.skip(2).len() == 0);
        if let Ok(y) = value_of(c.kind, c.long, v) {
            let st = store(empty_parse(), c.long, y);
            assert(cluster_flags(schema, u.skip(2), st) == Ok::<ParsedView, CallFault>(st));
            assert(token_effect(schema, stoks, 0, empty_parse()) == Ok::<
                (bool, ParsedView),
                CallFault,
            >((used, st)));
            assert(run(schema, stoks, if used { 2 } else { 1 }, st) == Ok::<ParsedView, CallFault>(
                st,
            ));
        }
    }
}

/// An option that the schema does not know ends parsing with an error naming
/// it, whatever tokens came before (if they parse) and whatever follows: a
/// long name that no option has fails with `LongFlagNotFound` (the name
/// `help` asks for the help page instead), and a short name that no option has,
/// at the start of a cluster, fails with `ShortFlagNotFound`.
pub proof fn lemma_unknown_option_fails(
    schema: Seq<CommandView>,
    before: Seq<TokenView>,
    name: Seq<char>,
    short: char,
    rest_of_cluster: Seq<char>,
    after: Seq<TokenView>,
)
    requires
        parse_tokens(schema, before) is Ok,
    ensures
        name.len() > 0 && long_lookup(schema, name) is None ==> parse_tokens(
            schema,
            before + seq![TokenView::Text(seq!['-', '-'] + name)] + after,
        ) == Err::<ParsedView, CallFault>(
            if name == help_name() {
                CallFault::HelpPage
            } else {
                CallFault::LongFlagNotFound(name)
            },
        ),
        short != '-' && short_lookup(schema, short) is None ==> parse_tokens(
            schema,
            before + seq![TokenView::Text(seq!['-', short] + rest_of_cluster)] + after,
        ) == Err::<ParsedView, CallFault>(CallFault::ShortFlagNotFound(short)),
{
    let st = parse_tokens(schema, before)->Ok_0;
    let n = before.len() as int;
    if name.len() > 0 && long_lookup(schema, name) is None {
        let t = seq!['-', '-'] + name;
        let tail = seq![TokenView::Text(t)] + after;
        lemma_run_extend(schema, before, tail, 0, empty_parse());
        let all = before + tail;
        assert(before + seq![TokenView::Text(t)] + after =~= all);
        assert(all[n] == TokenView::Text(t));
        assert(t.skip(2) =~= name);
    }
    if short != '-' && short_lookup(schema, short) is None {
        let t = seq!['-', short] + rest_of_cluster;
        let tail = seq![TokenView::Text(t)] + after;
        lemma_run_extend(schema, before, tail, 0, empty_parse());
        let all = before + tail;
        assert(before + seq![TokenView::Text(t)] + after =~= all);
        assert(all[n] == TokenView::Text(t));
        assert(t[1] == short);
    }
}

/// A token read as a positional argument: text that does not start with `-`,
/// or `-` or `--` alone.
pub open spec fn is_positional_text(t: TokenView) -> bool {
    t matches TokenView::Text(x) && (x.len() == 0 || x[0] != '-' || x.len() == 1 || (x.len() == 2
        && x[1] == '-'))
}

proof fn lemma_positionals_from(schema: Seq<CommandView>, toks: Seq<TokenView>, i: int, st: ParsedView)
    requires
        0 <= i <= toks.len(),
        forall|k: int| 0 <= k < toks.len() ==> is_positional_text(#[trigger] toks[k]),
    ensures
        run(schema, toks, i, st) == Ok::<ParsedView, CallFault>(
            ParsedView {
                args: st.args,
                unnamed: st.unnamed + toks.skip(i).map_values(|t: TokenView| t->Text_0),
            },
        ),
    decreases toks.len() - i,
{
    let rest = toks.skip(i).map_values(|t: TokenView| t->Text_0);
    if i < toks.len() {
        assert(is_positional_text(toks[i]));
        let t = toks[i]->Text_0;
        let st2 = ParsedView { args: st.args, unnamed: st.unnamed.push(t) };
        assert(token_effect(schema, toks, i, st) == Ok::<(bool, ParsedView), CallFault>((false, st2)));
        lemma_positionals_from(schema, toks, i + 1, st2);
        assert(st.unnamed.push(t) + toks.skip(i + 1).map_values(|t: TokenView| t->Text_0)
            =~= st.unnamed + rest);
    } else {
        assert(rest.len() == 0);
        assert(st.unnamed + rest =~= st.unnamed);
    }
}

/// Tokens that are all positional (none starts with `-`, unless it is `-`
/// or `--` alone) parse to no option values and to themselves as the positional
/// arguments, in the same order.
pub proof fn lemma_positionals_kept(schema: Seq<CommandView>, toks: Seq<TokenView>)
    requires
        forall|k: int| 0 <= k < toks.len() ==> is_positional_text(#[trigger] toks[k]),
    ensures
        parse_tokens(schema, toks) == Ok::<ParsedView, CallFault>(
            ParsedView {
                args: Map::empty(),
                unnamed: toks.map_values(|t: TokenView| t->Text_0),
            },
        ),
{
    lemma_positionals_from(schema, toks, 0, empty_parse());
    assert(toks.skip(0) =~= toks);
    assert(Seq::<Seq<char>>::empty() + toks.map_values(|t: TokenView| t->Text_0) =~= toks.map_values(
        |t: TokenView| t->Text_0,
    ));
}

impl CliArgs {
    /// A result with nothing stored and no positional tokens.
    pub fn new() -> (r: CliArgs)
        ensures
            r@ == empty_parse(),
    {
        let r = CliArgs { entries: Vec::new(), unnamed: Vec::new() };
        assert(r@.unnamed =~= Seq::<Seq<char>>::empty());
        assert(r.entries@.map_values(|e: Entry| (e.long@, e.value@)).len() == 0);
        r
    }

    /// Stores `value` under `long`, replacing what was stored there.
    fn insert(&mut self, long: String, value: ArgValue)
        ensures
            final(self)@ == store(old(self)@, long@, value@),
    {
        let ghost old_entries = self.entries@.map_values(|e: Entry| (e.long@, e.value@));
        self.entries.push(Entry { long, value });
        let ghost new_entries = self.entries@.map_values(|e: Entry| (e.long@, e.value@));
        assert(new_entries.drop_last() =~= old_entries);
    }

    fn push_unnamed(&mut self, token: String)
        ensures
            final(self)@ == (ParsedView { args: old(self)@.args, unnamed: old(self)@.unnamed.push(token@) }),
    {
        self.unnamed.push(token);
        assert(self@.unnamed =~= old(self)@.unnamed.push(token@));
    }

    /// The value stored under `long`, if that option was supplied.
    pub fn value(&self, long: &str) -> (r: Option<&ArgValue>)
        ensures
            match r {
                Some(v) => self@.args.contains_key(long@) && self@.args[long@] == v@,
                None => !self@.args.contains_key(long@),
            },
    {
        let key = long.to_owned();
        let ghost s = self.entries@.map_values(|e: Entry| (e.long@, e.value@));
        let mut i: usize = self.entries.len();
        while i > 0
            invariant
                i <= self.entries@.len(),
                key@ == long@,
                s == self.entries@.map_values(|e: Entry| (e.long@, e.value@)),
                forall|j: int| i <= j < s.len() ==> (#[trigger] s[j]).0 != key@,
            decreases i,
        {
            let e = &self.entries[i - 1];
            if e.long == key {
                proof {
                    lemma_entries_map_suffix(s, i as int, key@);
                    assert(s.take(i as int).drop_last() =~= s.take(i - 1));
                    assert(s.take(i as int).last() == s[i - 1]);
                    assert(s[i - 1] == (e.long@, e.value@));
                    assert(entries_map(s.take(i as int)) == entries_map(s.take(i - 1)).insert(
                        key@,
                        e.value@,
                    ));
                    assert(self@.args == entries_map(s));
                }
                return Some(&e.value);
            }
            i = i - 1;
        }
        proof {
            lemma_entries_map_suffix(s, 0, key@);
            assert(s.take(0).len() == 0);
        }
        None
    }

    /// The value stored under `long`, read as a `T`; `None` when the option was
    /// not supplied or its value is not a `T`.
    pub fn get<T: CliReturnValue>(&self, long: &str) -> (r: Option<&T>)
        ensures
            match r {
                Some(x) => self@.args.contains_key(long@) && T::holds(self@.args[long@], *x),
                None => !self@.args.contains_key(long@) || forall|x: T|
                    !T::holds(self@.args[long@], x),
            },
    {
        match self.value(long) {
            Some(v) => T::from_value(v),
            None => None,
        }
    }

    /// The positional tokens, in input order.
    pub fn unnamed(&self) -> (r: &[String])
        ensures
            r@.map_values(|s: String| s@) == self@.unnamed,
    {
        self.unnamed.as_slice()
    }
}

fn copy_bytes(b: &Vec<u8>) -> (r: Vec<u8>)
    ensures
        r@ == b@,
{
    let mut r: Vec<u8> = Vec::new();
    let mut i: usize = 0;
    while i < b.len()
        invariant
            i <= b@.len(),
            r@ == b@.take(i as int),
        decreases b@.len() - i,
    {
        r.push(b[i]);
        i = i + 1;
        assert(r@ =~= b@.take(i as int));
    }
    assert(b@.take(i as int) =~= b@);
    r
}

/// Stores the value of the option of kind `kind` named `long`, whose token is
/// `args[i]`; returns whether `args[i + 1]` was read as its value.
fn parse_value(
    kind: SchemaKind,
    results: &mut CliArgs,
    long: &String,
    args: &[ArgToken],
    i: usize,
) -> (r: Result<bool, CallError>)
    requires
        i < args@.len(),
    ensures
        match apply_option(kind, long@, tokens_view(args@), i as int, old(results)@) {
            Ok((used, st)) => r == Ok::<bool, CallError>(used) && final(results)@ == st,
            Err(e) => r matches Err(x) && x@ == e && final(results)@ == old(results)@,
        },
{
    let ghost toks = tokens_view(args@);
    if !kind.takes_value() {
        results.insert(long.clone(), ArgValue::Flag(true));
        return Ok(false);
    }
    if i >= args.len() - 1 {
        return Err(CallError::ExpectedValue(long.clone(), kind));
    }
    assert(toks[i + 1] == args@[i + 1]@);
    let text = match &args[i + 1] {
        ArgToken::Undecodable(b) => {
            return Err(CallError::InvalidUtf8(copy_bytes(b)));
        },
        ArgToken::Text(t) => t,
    };
    let value = match kind {
        SchemaKind::String | SchemaKind::OptString => ArgValue::Text(text.clone()),
        SchemaKind::Bool => ArgValue::Flag(true),
        SchemaKind::IInt => match parse_isize(text.as_str()) {
            Some(v) => ArgValue::Signed(v),
            None => {
                return Err(CallError::INan(long.clone()));
            },
        },
        SchemaKind::UInt => match parse_usize(text.as_str()) {
            Some(v) => ArgValue::Unsigned(v),
            None => {
                return Err(CallError::UNan(long.clone()));
            },
        },
        SchemaKind::Num => {
            if is_float_literal(text.as_str()) {
                ArgValue::Number(NumberLiteral::new(text.clone()))
            } else {
                return Err(CallError::NNan(long.clone()));
            }
        },
    };
    results.insert(long.clone(), value);
    Ok(true)
}

/// Handles `args[i]`, the long option token `--name`.
fn parse_long(
    schema: &Schema,
    results: &mut CliArgs,
    name: &str,
    args: &[ArgToken],
    i: usize,
) -> (r: Result<bool, CallError>)
    requires
        i < args@.len(),
    ensures
        match long_lookup(schema@, name@) {
            Some(c) => match apply_option(c.kind, c.long, tokens_view(args@), i as int, old(results)@) {
                Ok((used, st)) => r == Ok::<bool, CallError>(used) && final(results)@ == st,
                Err(e) => r matches Err(x) && x@ == e && final(results)@ == old(results)@,
            },
            None => final(results)@ == old(results)@ && (r matches Err(x) && x@ == if name@
                == help_name() {
                CallFault::HelpPage
            } else {
                CallFault::LongFlagNotFound(name@)
            }),
        },
{
    match schema.long(name) {
        Some(command) => parse_value(command.kind, results, &command.long, args, i),
        None => {
            let owned = name.to_owned();
            let help = "help".to_owned();
            proof {
                reveal_strlit("help");
                assert("help"@ =~= help_name());
            }
            if owned == help {
                Err(CallError::HelpPage)
            } else {
                Err(CallError::LongFlagNotFound(owned))
            }
        },
    }
}

proof fn lemma_chars_skip_step(s: Seq<char>, i: int)
    requires
        0 <= i < s.len(),
    ensures
        s.skip(i)[0] == s[i],
        s.skip(i).skip(1) == s.skip(i + 1),
{
    assert(s.skip(i).skip(1) =~= s.skip(i + 1));
}

/// Handles `args[i]`, the short cluster `-xyz` whose text is `token`: the
/// first short name may read a value, the others must be flags.
fn parse_shorts(
    schema: &Schema,
    results: &mut CliArgs,
    token: &str,
    args: &[ArgToken],
    i: usize,
) -> (r: Result<bool, CallError>)
    requires
        i < args@.len(),
        token@.len() >= 2,
    ensures
        match short_lookup(schema@, token@[1]) {
            None => final(results)@ == old(results)@ && (r matches Err(x) && x@
                == CallFault::ShortFlagNotFound(token@[1])),
            Some(c) => match apply_option(c.kind, c.long, tokens_view(args@), i as int, old(results)@) {
                Ok((used, st2)) => match cluster_flags(schema@, token@.skip(2), st2) {
                    Ok(st3) => r == Ok::<bool, CallError>(used) && final(results)@ == st3,
                    Err(e) => r matches Err(x) && x@ == e,
                },
                Err(e) => r matches Err(x) && x@ == e && final(results)@ == old(results)@,
            },
        },
{
    let first = token.get_char(1);
    let used = match schema.short(first) {
        Some(command) => match parse_value(command.kind, results, &command.long, args, i) {
            Ok(u) => u,
            Err(e) => {
                return Err(e);
            },
        },
        None => {
            return Err(CallError::ShortFlagNotFound(first));
        },
    };
    let ghost st2 = results@;
    let ghost c = short_lookup(schema@, token@[1])->Some_0;
    let n = token.unicode_len();
    let mut k: usize = 2;
    while k < n
        invariant
            2 <= k <= n,
            n == token@.len(),
            short_lookup(schema@, token@[1]) == Some(c),
            apply_option(c.kind, c.long, tokens_view(args@), i as int, old(results)@) == Ok::<
                (bool, ParsedView),
                CallFault,
            >((used, st2)),
            cluster_flags(schema@, token@.skip(2), st2) == cluster_flags(
                schema@,
                token@.skip(k as int),
                results@,
            ),
        decreases n - k,
    {
        let flag = token.get_char(k);
        proof {
            lemma_chars_skip_step(token@, k as int);
        }
        match schema.short(flag) {
            None => {
                return Err(CallError::ShortFlagNotFound(flag));
            },
            Some(command) => {
                if command.kind.takes_value() {
                    return Err(CallError::CombinedShortWithValue(command.long.clone()));
                }
                results.insert(command.long.clone(), ArgValue::Flag(true));
            },
        }
        k = k + 1;
    }
    assert(token@.skip(k as int).len() == 0);
    Ok(used)
}

impl CliArgs {
    /// Parses `args` against `schema`, left to right. An option that takes a
    /// value reads the next token, whatever it looks like; a later value for
    /// an option replaces an earlier one. The first error ends parsing.
    pub fn from_args(schema: &Schema, args: &[ArgToken]) -> (r: Result<CliArgs, CallError>)
        ensures
            match parse_tokens(schema@, tokens_view(args@)) {
                Ok(v) => r matches Ok(a) && a@ == v,
                Err(e) => r matches Err(x) && x@ == e,
            },
    {
        let ghost toks = tokens_view(args@);
        let mut result = CliArgs::new();
        let mut i: usize = 0;
        while i < args.len()
            invariant
                i <= args@.len(),
                toks == tokens_view(args@),
                parse_tokens(schema@, toks) == run(schema@, toks, i as int, result@),
            decreases args@.len() - i,
        {
            assert(toks[i as int] == args@[i as int]@);
            let step = match &args[i] {
                ArgToken::Undecodable(b) => {
                    return Err(CallError::InvalidUtf8(copy_bytes(b)));
                },
                ArgToken::Text(t) => {
                    let n = t.unicode_len();
                    if n > 2 && t.as_str().get_char(0) == '-' && t.as_str().get_char(1) == '-' {
                        let name = t.as_str().substring_char(2, n);
                        assert(name@ =~= t@.skip(2));
                        parse_long(schema, &mut result, name, args, i)
                    } else if n >= 2 && t.as_str().get_char(0) == '-' && t.as_str().get_char(1) != '-' {
                        parse_shorts(schema, &mut result, t.as_str(), args, i)
                    } else {
                        result.push_unnamed(t.clone());
                        Ok(false)
                    }
                },
            };
            match step {
                Ok(used) => {
                    i = if used {
                        i + 2
                    } else {
                        i + 1
                    };
                },
                Err(e) => {
                    return Err(e);
                },
            }
        }
        Ok(result)
    }
}

} // verus!
