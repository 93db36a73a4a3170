//! The registry of recognized options: long names and short aliases mapped to
//! their descriptors, with both kinds of names unique.

use crate::value::CliReturnValue;
use crate::CliArg;
use vstd::prelude::*;

verus! {

/// The shape of value an option expects.
#[derive(Debug, Clone, Copy, PartialEq, Eq, Structural)]
pub enum SchemaKind {
    /// A text value taken verbatim from the next token.
    String,
    /// A text value that the caller treats as optional; parsed like `String`.
    OptString,
    /// A flag: no value is consumed, presence stores `true`.
    Bool,
    /// A signed integer value.
    IInt,
    /// An unsigned integer value.
    UInt,
    /// A number in decimal floating-point notation.
    Num,
}

impl SchemaKind {
    /// Whether an option of this kind consumes the following token as its value.
    pub open spec fn spec_takes_value(self) -> bool {
        !(self is Bool)
    }

    pub fn takes_value(self) -> (r: bool)
        ensures
            r == self.spec_takes_value(),
    {
        !matches!(self, SchemaKind::Bool)
    }
}

/// One recognized option.
#[derive(Debug, Clone, PartialEq, Eq)]
pub struct SchemaCommand {
    pub kind: SchemaKind,
    pub long: String,
    pub short: Option<char>,
}

/// The mathematical value of a [`SchemaCommand`].
pub ghost struct CommandView {
    pub kind: SchemaKind,
    pub long: Seq<char>,
    pub short: Option<char>,
}

impl View for SchemaCommand {
    type V = CommandView;

    open spec fn view(&self) -> CommandView {
        CommandView { kind: self.kind, long: self.long@, short: self.short }
    }
}

impl SchemaCommand {
    /// A descriptor with the given kind and names.
    pub fn new(kind: SchemaKind, long: &str, short: Option<char>) -> (r: SchemaCommand)
        ensures
            r@ == (CommandView { kind, long: long@, short }),
    {
        SchemaCommand { kind, long: long.to_owned(), short }
    }

    fn duplicate(&self) -> (r: SchemaCommand)
        ensures
            r@ == self@,
    {
        SchemaCommand { kind: self.kind, long: self.long.clone(), short: self.short }
    }
}

/// Why a set of descriptors does not form a schema.
#[derive(Debug, Clone, PartialEq, Eq)]
pub enum SchemaError {
    /// Two descriptors share this long name.
    DuplicateLongName(String),
    /// Two descriptors share this short name.
    DuplicateShortName(char),
}

/// The mathematical value of a [`SchemaError`].
pub ghost enum SchemaFault {
    DuplicateLongName(Seq<char>),
    DuplicateShortName(char),
}

impl View for SchemaError {
    type V = SchemaFault;

    open spec fn view(&self) -> SchemaFault {
        match self {
            SchemaError::DuplicateLongName(n) => SchemaFault::DuplicateLongName(n@),
            SchemaError::DuplicateShortName(c) => SchemaFault::DuplicateShortName(*c),
        }
    }
}

/// Some descriptor of `s` has the long name `name`.
pub open spec fn long_taken(s: Seq<CommandView>, name: Seq<char>) -> bool {
    exists|i: int| 0 <= i < s.len() && #[trigger] s[i].long == name
}

/// Some descriptor of `s` has the short name `c`.
pub open spec fn short_taken(s: Seq<CommandView>, c: char) -> bool {
    exists|i: int| 0 <= i < s.len() && #[trigger] s[i].short == Some(c)
}

/// The first descriptor of `s` with long name `name`.
pub open spec fn long_lookup(s: Seq<CommandView>, name: Seq<char>) -> Option<CommandView>
    decreases s.len(),
{
    if s.len() == 0 {
        None
    } else if s[0].long == name {
        Some(s[0])
    } else {
        long_lookup(s.skip(1), name)
    }
}

/// The first descriptor of `s` with short name `c`.
pub open spec fn short_lookup(s: Seq<CommandView>, c: char) -> Option<CommandView>
    decreases s.len(),
{
    if s.len() == 0 {
        None
    } else if s[0].short == Some(c) {
        Some(s[0])
    } else {
        short_lookup(s.skip(1), c)
    }
}

proof fn lemma_skip_step(s: Seq<CommandView>, i: int)
    requires
        0 <= i < s.len(),
    ensures
        s.skip(i)[0] == s[i],
        s.skip(i).skip(1) == s.skip(i + 1),
{
    assert(s.skip(i).skip(1) =~= s.skip(i + 1));
}

/// No two descriptors of `s` share a long name, and no two share a short name.
pub open spec fn distinct_names(s: Seq<CommandView>) -> bool {
    forall|i: int, j: int|
        0 <= i < j < s.len() ==> {
            &&& #[trigger] s[i].long != #[trigger] s[j].long
            &&& (s[i].short is Some ==> s[i].short != s[j].short)
        }
}

/// Registering `c` in a schema holding `s`: the long name is checked first,
/// then the short name.
pub open spec fn register(s: Seq<CommandView>, c: CommandView) -> Result<
    Seq<CommandView>,
    SchemaFault,
> {
    if long_taken(s, c.long) {
        Err(SchemaFault::DuplicateLongName(c.long))
    } else if c.short is Some && short_taken(s, c.short->Some_0) {
        Err(SchemaFault::DuplicateShortName(c.short->Some_0))
    } else {
        Ok(s.push(c))
    }
}

/// Registering the descriptors of `cmds` one after another into an empty schema.
pub open spec fn build(cmds: Seq<CommandView>) -> Result<Seq<CommandView>, SchemaFault>
    decreases cmds.len(),
{
    if cmds.len() == 0 {
        Ok(Seq::empty())
    } else {
        match build(cmds.drop_last()) {
            Ok(s) => register(s, cmds.last()),
            Err(e) => Err(e),
        }
    }
}

/// Registering the descriptors of `cmds` one after another into a schema
/// holding `s`.
pub open spec fn build_onto(s: Seq<CommandView>, cmds: Seq<CommandView>) -> Result<
    Seq<CommandView>,
    SchemaFault,
>
    decreases cmds.len(),
{
    if cmds.len() == 0 {
        Ok(s)
    } else {
        match build_onto(s, cmds.drop_last()) {
            Ok(t) => register(t, cmds.last()),
            Err(e) => Err(e),
        }
    }
}

/// Building into an empty schema is building from scratch.
proof fn lemma_build_onto_empty(cmds: Seq<CommandView>)
    ensures
        build_onto(Seq::empty(), cmds) == build(cmds),
    decreases cmds.len(),
{
    if cmds.len() > 0 {
        lemma_build_onto_empty(cmds.drop_last());
    }
}

/// Registering `a + b` is registering `a`, then `b` if that succeeded.
proof fn lemma_build_onto_concat(s: Seq<CommandView>, a: Seq<CommandView>, b: Seq<CommandView>)
    ensures
        build_onto(s, a + b) == match build_onto(s, a) {
            Ok(t) => build_onto(t, b),
            Err(e) => Err(e),
        },
    decreases b.len(),
{
    if b.len() == 0 {
        assert(a + b =~= a);
    } else {
        assert((a + b).drop_last() =~= a + b.drop_last());
        assert((a + b).last() == b.last());
        lemma_build_onto_concat(s, a, b.drop_last());
    }
}

/// Once registration has failed on a prefix, it fails the same way on any longer one.
proof fn lemma_build_stays_failed(cmds: Seq<CommandView>, n: int)
    requires
        0 <= n <= cmds.len(),
        build(cmds.take(n)) is Err,
    ensures
        build(cmds) == build(cmds.take(n)),
    decreases cmds.len() - n,
{
    if n < cmds.len() {
        assert(cmds.take(n + 1).drop_last() =~= cmds.take(n));
        lemma_build_stays_failed(cmds, n + 1);
    } else {
        assert(cmds.take(n) =~= cmds);
    }
}

/// Building a schema succeeds exactly when all long names are distinct and all
/// short names are distinct; it then holds the descriptors in the order given.
/// A failure names a long or short name that two of the descriptors share.
pub proof fn lemma_build_succeeds_iff_names_distinct(cmds: Seq<CommandView>)
    ensures
        build(cmds) is Ok <==> distinct_names(cmds),
        build(cmds) is Ok ==> build(cmds) == Ok::<Seq<CommandView>, SchemaFault>(cmds),
        build(cmds) matches Err(SchemaFault::DuplicateLongName(n)) ==> exists|i: int, j: int|
            0 <= i < j < cmds.len() && cmds[i].long == n && cmds[j].long == n,
        build(cmds) matches Err(SchemaFault::DuplicateShortName(c)) ==> exists|i: int, j: int|
            0 <= i < j < cmds.len() && cmds[i].short == Some(c) && cmds[j].short == Some(c),
    decreases cmds.len(),
{
    if cmds.len() > 0 {
        let dl = cmds.drop_last();
        let c = cmds.last();
        let j = cmds.len() - 1;
        lemma_build_succeeds_iff_names_distinct(dl);
        assert forall|i: int| 0 <= i < dl.len() implies #[trigger] dl[i] == cmds[i] by {}
        if distinct_names(dl) {
            if long_taken(dl, c.long) {
                let i = choose|i: int| 0 <= i < dl.len() && #[trigger] dl[i].long == c.long;
                assert(cmds[i].long == cmds[j].long);
                assert(!distinct_names(cmds));
            } else if c.short is Some && short_taken(dl, c.short->Some_0) {
                let i = choose|i: int| 0 <= i < dl.len() && #[trigger] dl[i].short == c.short;
                assert(cmds[i].short == cmds[j].short);
                assert(cmds[i].long == dl[i].long);
                assert(!distinct_names(cmds));
            } else {
                assert(dl.push(c) =~= cmds);
                assert forall|a: int, b: int| 0 <= a < b < cmds.len() implies {
                    &&& #[trigger] cmds[a].long != #[trigger] cmds[b].long
                    &&& (cmds[a].short is Some ==> cmds[a].short != cmds[b].short)
                } by {
                    if b == j {
                        if cmds[a].long == c.long {
                            assert(dl[a].long == c.long);
                        }
                        if cmds[a].short is Some && cmds[a].short == c.short {
                            assert(dl[a].short == Some(c.short->Some_0));
                        }
                    } else {
                        assert(dl[a].long != dl[b].long);
                    }
                }
            }
        } else {
            assert(exists|a: int, b: int|
                0 <= a < b < dl.len() && !{
                    &&& #[trigger] dl[a].long != #[trigger] dl[b].long
                    &&& (dl[a].short is Some ==> dl[a].short != dl[b].short)
                });
            let (a, b) = choose|a: int, b: int|
                0 <= a < b < dl.len() && !{
                    &&& #[trigger] dl[a].long != #[trigger] dl[b].long
                    &&& (dl[a].short is Some ==> dl[a].short != dl[b].short)
                };
            assert(cmds[a] == dl[a] && cmds[b] == dl[b]);
            assert(!distinct_names(cmds)) by {
                assert(cmds[a].long == cmds[b].long || (cmds[a].short is Some && cmds[a].short == cmds[b].short));
            }
        }
    } else {
        assert(build(cmds) == Ok::<Seq<CommandView>, SchemaFault>(Seq::empty()));
        assert(cmds =~= Seq::empty());
    }
}

proof fn lemma_lookup_found(s: Seq<CommandView>, name: Seq<char>, c: char)
    ensures
        long_lookup(s, name) matches Some(x) ==> s.contains(x) && x.long == name,
        long_lookup(s, name) is None <==> !long_taken(s, name),
        short_lookup(s, c) matches Some(x) ==> s.contains(x) && x.short == Some(c),
        short_lookup(s, c) is None <==> !short_taken(s, c),
    decreases s.len(),
{
    if s.len() > 0 {
        let t = s.skip(1);
        lemma_lookup_found(t, name, c);
        assert forall|k: int| 0 <= k < t.len() implies #[trigger] t[k] == s[k + 1] by {}
        if long_taken(s, name) && s[0].long != name {
            let k = choose|k: int| 0 <= k < s.len() && #[trigger] s[k].long == name;
            assert(t[k - 1].long == name);
        }
        if short_taken(s, c) && s[0].short != Some(c) {
            let k = choose|k: int| 0 <= k < s.len() && #[trigger] s[k].short == Some(c);
            assert(t[k - 1].short == Some(c));
        }
        if long_taken(t, name) {
            let k = choose|k: int| 0 <= k < t.len() && #[trigger] t[k].long == name;
            assert(s[k + 1].long == name);
        }
        if short_taken(t, c) {
            let k = choose|k: int| 0 <= k < t.len() && #[trigger] t[k].short == Some(c);
            assert(s[k + 1].short == Some(c));
        }
        if let Some(x) = long_lookup(t, name) {
            let k = choose|k: int| 0 <= k < t.len() && t[k] == x;
            assert(s[k + 1] == x);
        }
        if let Some(x) = short_lookup(t, c) {
            let k = choose|k: int| 0 <= k < t.len() && t[k] == x;
            assert(s[k + 1] == x);
        }
        assert(s[0] == s[0]);
        assert(s.contains(s[0]));
    }
}

/// In a sequence with distinct names, the descriptor found under a name is any
/// descriptor of the sequence that has it.
pub(crate) proof fn lemma_lookup_distinct(s: Seq<CommandView>, x: CommandView)
    requires
        distinct_names(s),
        s.contains(x),
    ensures
        long_lookup(s, x.long) == Some(x),
        x.short matches Some(c) ==> short_lookup(s, c) == Some(x),
{
    let i = choose|i: int| 0 <= i < s.len() && s[i] == x;
    lemma_lookup_found(s, x.long, if x.short is Some { x.short->Some_0 } else { 'a' });
    assert(s[i].long == x.long);
    assert(long_taken(s, x.long));
    let y = long_lookup(s, x.long)->Some_0;
    let j = choose|j: int| 0 <= j < s.len() && s[j] == y;
    if i < j {
        assert(s[i].long != s[j].long);
    } else if j < i {
        assert(s[j].long != s[i].long);
    }
    if let Some(c) = x.short {
        assert(s[i].short == Some(c));
        assert(short_taken(s, c));
        let z = short_lookup(s, c)->Some_0;
        let m = choose|m: int| 0 <= m < s.len() && s[m] == z;
        if i < m {
            assert(s[i].long != s[m].long);
        } else if m < i {
            assert(s[m].long != s[i].long);
        }
    }
}

proof fn lemma_distinct_names_permutation(d1: Seq<CommandView>, d2: Seq<CommandView>)
    requires
        d1.to_multiset() == d2.to_multiset(),
        distinct_names(d1),
    ensures
        distinct_names(d2),
{
    broadcast use vstd::seq_lib::to_multiset_contains;

    assert(d1.no_duplicates()) by {
        assert forall|i: int, j: int| 0 <= i < d1.len() && 0 <= j < d1.len() && i != j implies d1[i]
            != d1[j] by {
            if i < j {
                assert(d1[i].long != d1[j].long);
            } else {
                assert(d1[j].long != d1[i].long);
            }
        }
    }
    d1.lemma_multiset_has_no_duplicates();
    d2.lemma_multiset_has_no_duplicates_conv();
    assert forall|i: int, j: int| 0 <= i < j < d2.len() implies {
        &&& #[trigger] d2[i].long != #[trigger] d2[j].long
        &&& (d2[i].short is Some ==> d2[i].short != d2[j].short)
    } by {
        assert(d2.contains(d2[i]) && d2.contains(d2[j]));
        assert(d2.to_multiset().count(d2[i]) > 0 && d2.to_multiset().count(d2[j]) > 0);
        assert(d1.contains(d2[i]) && d1.contains(d2[j]));
        let a = choose|a: int| 0 <= a < d1.len() && d1[a] == d2[i];
        let b = choose|b: int| 0 <= b < d1.len() && d1[b] == d2[j];
        assert(d2[i] != d2[j]);
        if a < b {
            assert(d1[a].long != d1[b].long);
        } else {
            assert(d1[b].long != d1[a].long);
        }
    }
}

proof fn lemma_lookups_permutation(d1: Seq<CommandView>, d2: Seq<CommandView>, n: Seq<char>, c: char)
    requires
        d1.to_multiset() == d2.to_multiset(),
        distinct_names(d1),
        distinct_names(d2),
    ensures
        long_lookup(d1, n) == long_lookup(d2, n),
        short_lookup(d1, c) == short_lookup(d2, c),
{
    broadcast use vstd::seq_lib::to_multiset_contains;

    lemma_lookup_found(d1, n, c);
    lemma_lookup_found(d2, n, c);
    if let Some(x) = long_lookup(d1, n) {
        assert(d1.to_multiset().count(x) > 0);
        lemma_lookup_distinct(d2, x);
    } else if let Some(x) = long_lookup(d2, n) {
        assert(d2.to_multiset().count(x) > 0);
        lemma_lookup_distinct(d1, x);
    }
    if let Some(x) = short_lookup(d1, c) {
        assert(d1.to_multiset().count(x) > 0);
        lemma_lookup_distinct(d2, x);
    } else if let Some(x) = short_lookup(d2, c) {
        assert(d2.to_multiset().count(x) > 0);
        lemma_lookup_distinct(d1, x);
    }
}

/// The schema built from a set of descriptors does not depend on how they were
/// grouped or ordered: two orderings of the same descriptors either both fail
/// or both succeed, and then find the same descriptor under every long and
/// every short name.
pub proof fn lemma_build_order_independent(d1: Seq<CommandView>, d2: Seq<CommandView>)
    requires
        d1.to_multiset() == d2.to_multiset(),
    ensures
        build(d1) is Ok <==> build(d2) is Ok,
        build(d1) is Ok ==> forall|n: Seq<char>|
            long_lookup(build(d1)->Ok_0, n) == #[trigger] long_lookup(build(d2)->Ok_0, n),
        build(d1) is Ok ==> forall|c: char|
            short_lookup(build(d1)->Ok_0, c) == #[trigger] short_lookup(build(d2)->Ok_0, c),
{
    lemma_build_succeeds_iff_names_distinct(d1);
    lemma_build_succeeds_iff_names_distinct(d2);
    if distinct_names(d1) {
        lemma_distinct_names_permutation(d1, d2);
    }
    if distinct_names(d2) {
        lemma_distinct_names_permutation(d2, d1);
    }
    if build(d1) is Ok {
        assert forall|n: Seq<char>|
            long_lookup(build(d1)->Ok_0, n) == #[trigger] long_lookup(build(d2)->Ok_0, n) by {
            lemma_lookups_permutation(d1, d2, n, 'a');
        }
        assert forall|c: char|
            short_lookup(build(d1)->Ok_0, c) == #[trigger] short_lookup(build(d2)->Ok_0, c) by {
            lemma_lookups_permutation(d1, d2, seq![], c);
        }
    }
}

/// A validated set of options.
#[derive(Debug, Clone, PartialEq, Eq)]
pub struct Schema {
    commands: Vec<SchemaCommand>,
}

impl View for Schema {
    type V = Seq<CommandView>;

    closed spec fn view(&self) -> Seq<CommandView> {
        self.commands@.map_values(|c: SchemaCommand| c@)
    }
}

impl Schema {
    /// The schema's well-formedness: its names are unique.
    pub open spec fn wf(&self) -> bool {
        distinct_names(self@)
    }

    /// A schema without options.
    pub fn empty() -> (r: Schema)
        ensures
            r@ == Seq::<CommandView>::empty(),
            r.wf(),
    {
        let r = Schema { commands: Vec::new() };
        assert(r@ =~= Seq::<CommandView>::empty());
        r
    }

    fn position_long(&self, name: &String) -> (r: Option<usize>)
        ensures
            match r {
                Some(i) => i < self@.len() && self@[i as int].long == name@ && long_lookup(
                    self@,
                    name@,
                ) == Some(self@[i as int]),
                None => !long_taken(self@, name@) && long_lookup(self@, name@) is None,
            },
    {
        let mut i: usize = 0;
        assert(self@.skip(0) =~= self@);
        while i < self.commands.len()
            invariant
                i <= self.commands@.len(),
                self@.len() == self.commands@.len(),
                forall|k: int| 0 <= k < i ==> self@[k].long != name@,
                long_lookup(self@, name@) == long_lookup(self@.skip(i as int), name@),
            decreases self.commands@.len() - i,
        {
            proof {
                lemma_skip_step(self@, i as int);
            }
            if self.commands[i].long == *name {
                return Some(i);
            }
            i = i + 1;
        }
        assert(self@.skip(i as int).len() == 0);
        None
    }

    fn position_short(&self, c: char) -> (r: Option<usize>)
        ensures
            match r {
                Some(i) => i < self@.len() && self@[i as int].short == Some(c) && short_lookup(
                    self@,
                    c,
                ) == Some(self@[i as int]),
                None => !short_taken(self@, c) && short_lookup(self@, c) is None,
            },
    {
        let mut i: usize = 0;
        assert(self@.skip(0) =~= self@);
        while i < self.commands.len()
            invariant
                i <= self.commands@.len(),
                self@.len() == self.commands@.len(),
                forall|k: int| 0 <= k < i ==> self@[k].short != Some(c),
                short_lookup(self@, c) == short_lookup(self@.skip(i as int), c),
            decreases self.commands@.len() - i,
        {
            proof {
                lemma_skip_step(self@, i as int);
            }
            if let Some(s) = self.commands[i].short {
                if s == c {
                    return Some(i);
                }
            }
            i = i + 1;
        }
        assert(self@.skip(i as int).len() == 0);
        None
    }

    /// Registers `command`, failing without change when its long name or its
    /// short name is already taken (the long name is checked first).
    pub fn add_command(&mut self, command: SchemaCommand) -> (r: Result<(), SchemaError>)
        requires
            old(self).wf(),
        ensures
            final(self).wf(),
            match register(old(self)@, command@) {
                Ok(s) => r is Ok && final(self)@ == s,
                Err(e) => r matches Err(x) && x@ == e && final(self)@ == old(self)@,
            },
    {
        if self.position_long(&command.long).is_some() {
            return Err(SchemaError::DuplicateLongName(command.long));
        }
        if let Some(c) = command.short {
            if self.position_short(c).is_some() {
                return Err(SchemaError::DuplicateShortName(c));
            }
        }
        proof {
            let ghost cv = command@;
            let ghost s = self@;
            assert forall|i: int, j: int| 0 <= i < j < s.push(cv).len() implies {
                &&& #[trigger] s.push(cv)[i].long != #[trigger] s.push(cv)[j].long
                &&& (s.push(cv)[i].short is Some ==> s.push(cv)[i].short != s.push(cv)[j].short)
            } by {
                if j == s.len() {
                    assert(s.push(cv)[i] == s[i]);
                    if s[i].long == cv.long {
                        assert(long_taken(s, cv.long));
                    }
                    if s[i].short is Some && s[i].short == cv.short {
                        assert(short_taken(s, cv.short->Some_0));
                    }
                } else {
                    assert(s.push(cv)[i] == s[i] && s.push(cv)[j] == s[j]);
                    assert(s[i].long != s[j].long);
                }
            }
        }
        self.commands.push(command);
        assert(self@ =~= old(self)@.push(command@));
        Ok(())
    }

    /// Builds a schema by registering `commands` in order; fails on the first
    /// descriptor whose long or short name is already taken.
    pub fn from_commands(commands: &[SchemaCommand]) -> (r: Result<Schema, SchemaError>)
        ensures
            match build(commands@.map_values(|c: SchemaCommand| c@)) {
                Ok(s) => r matches Ok(schema) && schema@ == s && schema.wf(),
                Err(e) => r matches Err(x) && x@ == e,
            },
    {
        let ghost cmds = commands@.map_values(|c: SchemaCommand| c@);
        let mut schema = Schema::empty();
        let mut i: usize = 0;
        while i < commands.len()
            invariant
                i <= commands@.len(),
                cmds == commands@.map_values(|c: SchemaCommand| c@),
                schema.wf(),
                build(cmds.take(i as int)) == Ok::<Seq<CommandView>, SchemaFault>(schema@),
            decreases commands@.len() - i,
        {
            assert(cmds.take(i + 1).drop_last() =~= cmds.take(i as int));
            assert(cmds.take(i + 1).last() == commands@[i as int]@);
            match schema.add_command(commands[i].duplicate()) {
                Ok(()) => {},
                Err(e) => {
                    proof { lemma_build_stays_failed(cmds, i as int + 1); }
                    return Err(e);
                },
            }
            i = i + 1;
        }
        assert(cmds.take(i as int) =~= cmds);
        Ok(schema)
    }

    /// The option with long name `name`, if any.
    pub fn long(&self, name: &str) -> (r: Option<&SchemaCommand>)
        ensures
            r is Some <==> long_taken(self@, name@),
            match r {
                Some(c) => long_lookup(self@, name@) == Some(c@),
                None => long_lookup(self@, name@) is None,
            },
    {
        let owned = name.to_owned();
        match self.position_long(&owned) {
            Some(i) => Some(&self.commands[i]),
            None => None,
        }
    }

    /// The option with short name `name`, if any.
    pub fn short(&self, name: char) -> (r: Option<&SchemaCommand>)
        ensures
            r is Some <==> short_taken(self@, name),
            match r {
                Some(c) => short_lookup(self@, name) == Some(c@),
                None => short_lookup(self@, name) is None,
            },
    {
        match self.position_short(name) {
            Some(i) => Some(&self.commands[i]),
            None => None,
        }
    }

    /// Builds the schema of the options that `S` declares, registering them
    /// in order as [`Schema::add_command`] does.
    pub fn create<S: IntoSchema>() -> (r: Result<Schema, SchemaError>)
        ensures
            match build(S::declared()) {
                Ok(s) => r matches Ok(schema) && schema@ == s && schema.wf(),
                Err(e) => r matches Err(x) && x@ == e,
            },
    {
        let mut schema = Schema::empty();
        proof {
            lemma_build_onto_empty(S::declared());
        }
        match S::add_schema(&mut schema) {
            Ok(()) => Ok(schema),
            Err(e) => Err(e),
        }
    }

    /// All registered options, in the order they were registered.
    pub fn arguments(&self) -> (r: &[SchemaCommand])
        ensures
            r@.map_values(|c: SchemaCommand| c@) == self@,
    {
        self.commands.as_slice()
    }
}

/// Something that declares options: one option type, or a pair of declarations.
pub trait IntoSchema {
    /// The declared options, flattened in order.
    spec fn declared() -> Seq<CommandView>;

    /// Registers the declared options in `schema`, in order, stopping at the
    /// first whose long or short name is already taken.
    fn add_schema(schema: &mut Schema) -> (r: Result<(), SchemaError>)
        requires
            old(schema).wf(),
        ensures
            final(schema).wf(),
            match build_onto(old(schema)@, Self::declared()) {
                Ok(s) => r is Ok && final(schema)@ == s,
                Err(e) => r matches Err(x) && x@ == e,
            },
    ;
}

impl<S1: IntoSchema, S2: IntoSchema> IntoSchema for (S1, S2) {
    open spec fn declared() -> Seq<CommandView> {
        S1::declared() + S2::declared()
    }

    fn add_schema(schema: &mut Schema) -> (r: Result<(), SchemaError>) {
        proof {
            lemma_build_onto_concat(old(schema)@, S1::declared(), S2::declared());
        }
        match S1::add_schema(schema) {
            Ok(()) => {},
            Err(e) => {
                return Err(e);
            },
        }
        S2::add_schema(schema)
    }
}

impl<T: CliArg> IntoSchema for T {
    open spec fn declared() -> Seq<CommandView> {
        seq![CommandView { kind: T::Content::spec_kind(), long: T::spec_long(), short: T::spec_short() }]
    }

    fn add_schema(schema: &mut Schema) -> (r: Result<(), SchemaError>)
        ensures
            match register(
                old(schema)@,
                CommandView { kind: T::Content::spec_kind(), long: T::spec_long(), short: T::spec_short() },
            ) {
                Ok(s) => r is Ok && final(schema)@ == s,
                Err(e) => r matches Err(x) && x@ == e && final(schema)@ == old(schema)@,
            },
    {
        let command = SchemaCommand::new(T::Content::kind(), T::long(), T::short());
        proof {
            let d = Self::declared();
            assert(d.drop_last() =~= Seq::<CommandView>::empty());
            assert(build_onto(old(schema)@, d.drop_last()) == Ok::<Seq<CommandView>, SchemaFault>(
                old(schema)@,
            ));
            assert(build_onto(old(schema)@, d) == register(old(schema)@, d.last()));
        }
        schema.add_command(command)
    }
}

/// How declarations are grouped does not change the schema that
/// [`Schema::create`] builds: nesting a triple either way declares the same
/// sequence of options, and swapping the parts of a pair only reorders it, so
/// both orders succeed or fail together and, when they succeed, find the same
/// option under every long and every short name.
pub proof fn lemma_grouping_flattens<A: IntoSchema, B: IntoSchema, C: IntoSchema>()
    ensures
        <(A, (B, C)) as IntoSchema>::declared() == <((A, B), C) as IntoSchema>::declared(),
        build(<(A, B) as IntoSchema>::declared()) is Ok <==> build(
            <(B, A) as IntoSchema>::declared(),
        ) is Ok,
        build(<(A, B) as IntoSchema>::declared()) is Ok ==> forall|n: Seq<char>|
            long_lookup(build(<(A, B) as IntoSchema>::declared())->Ok_0, n)
                == #[trigger] long_lookup(build(<(B, A) as IntoSchema>::declared())->Ok_0, n),
        build(<(A, B) as IntoSchema>::declared()) is Ok ==> forall|c: char|
            short_lookup(build(<(A, B) as IntoSchema>::declared())->Ok_0, c)
                == #[trigger] short_lookup(build(<(B, A) as IntoSchema>::declared())->Ok_0, c),
{
    assert(A::declared() + (B::declared() + C::declared()) =~= (A::declared() + B::declared())
        + C::declared());
    vstd::seq_lib::lemma_seq_union_to_multiset_commutative(A::declared(), B::declared());
    lemma_build_order_independent(A::declared() + B::declared(), B::declared() + A::declared());
}

} // verus!
