//! Gateway commands whose arguments come as one text: their parsers, a
//! registry of parsers by name, and the executors.
use vstd::prelude::*;
use std::sync::Arc;
use crate::process_chain::block::context::{
    Context, key_header, key_touches_header, label_header, law_req_value_after_set,
    lemma_req_label_key, value_of,
};
use crate::process_chain::block::storage::{join, joins_set, lemma_split_join};
use crate::text::{is_sep, lemma_split_state_without_sep, lemma_split_without_sep, split_state};
use crate::registry::{entry_views, find_latest, latest_map, share};
use crate::text::{
    Sep, all_ascii, chars_eq, chars_of, owned, split_all, split_chars, split_chars_nonempty,
    split_nonempty, string_of_all, trim, trim_bounds, trimmed_string, views,
};
use vstd::string::StringExecFns;

pub use crate::process_chain::block::cmd::cmd::{
    ActionModel, CommandAction, CommandResult, ExecutorModel, ResultModel, failure_model,
    model_can_run, model_runs, result_model, success_model,
};

pub mod action;
pub mod assign;
pub mod cmd;
pub mod external;
pub mod factory;
pub mod label;
pub mod match_;
pub mod sni;

verus! {

broadcast use vstd::std_specs::vec::group_vec_axioms;

/// A shared command parser.
pub type CommandParserRef = Arc<Box<dyn CommandParser>>;

/// Turns the argument text of a command into an executor.
pub trait CommandParser {
    /// Whether this argument text is accepted.
    spec fn accepts(&self, args: Seq<char>) -> bool;

    /// The executor an accepted argument text makes.
    spec fn builds(&self, args: Seq<char>) -> ExecutorModel;

    fn parse(&self, args: &str) -> (r: Result<CommandExecuterRef, String>)
        ensures
            r is Ok <==> self.accepts(args@),
            r matches Ok(e) ==> e.model() == self.builds(args@),
    ;
}

/// Command parsers by name.
pub struct CommandParserFactory {
    parsers: Vec<(String, CommandParserRef)>,
}

/// The message for a command name with no parser.
pub open spec fn parser_not_found_message(name: Seq<char>) -> Seq<char> {
    "Command parser "@ + name + " not found"@
}

impl CommandParserFactory {
    /// The parsers by name.
    pub closed spec fn parsers(&self) -> Map<Seq<char>, CommandParserRef> {
        latest_map(entry_views(self.parsers@))
    }

    pub fn new() -> (r: Self)
        ensures
            r.parsers() == Map::<Seq<char>, CommandParserRef>::empty(),
    {
        Self { parsers: Vec::new() }
    }

    /// Registers `parser` under `name`, replacing any parser it had.
    pub fn register(&mut self, name: &str, parser: CommandParserRef)
        ensures
            final(self).parsers() == old(self).parsers().insert(name@, parser),
    {
        let ghost before = entry_views(self.parsers@);
        self.parsers.push((owned(name), parser));
        assert(entry_views(self.parsers@).drop_last() =~= before);
    }

    /// The parser registered under `name`.
    pub fn get_parser(&self, name: &str) -> (r: Option<CommandParserRef>)
        ensures
            r is Some <==> self.parsers().contains_key(name@),
            r matches Some(p) ==> p == self.parsers()[name@],
    {
        match find_latest(&self.parsers, name) {
            Some(i) => Some(share(&self.parsers[i].1)),
            None => None,
        }
    }

    /// Parses `args` with the parser registered under `name`; a name with
    /// no parser is refused.
    pub fn parse(&self, name: &str, args: &str) -> (r: Result<CommandExecuterRef, String>)
        ensures
            !self.parsers().contains_key(name@) ==> (r matches Err(m) && m@
                == parser_not_found_message(name@)),
            self.parsers().contains_key(name@) ==> (r is Ok <==> self.parsers()[name@].accepts(
                args@,
            )),
            self.parsers().contains_key(name@) ==> (r matches Ok(e) ==> e.model()
                == self.parsers()[name@].builds(args@)),
    {
        match self.get_parser(name) {
            None => {
                let mut msg = owned("Command parser ");
                msg.append(name);
                msg.append(" not found");
                Err(msg)
            },
            Some(parser) => parser.parse(args),
        }
    }
}

/// Runs a parsed command against a context.
pub trait CommandExecuter {
    /// What this executor is.
    spec fn model(&self) -> ExecutorModel;

    fn exec(&self, context: &mut Context) -> (r: Result<CommandResult, String>)
        requires
            model_can_run(self.model(), *old(context)),
        ensures
            model_runs(self.model(), *old(context), *final(context), result_model(r)),
    ;
}

/// A shared command executor.
pub type CommandExecuterRef = Arc<Box<dyn CommandExecuter>>;

/// Whether a regular expression compiles, by `regex::Regex::new`.
pub uninterp spec fn regex_compiles(pattern: Seq<char>) -> bool;

/// The text `regex::Error` displays for a pattern that does not compile.
pub uninterp spec fn regex_error_text(pattern: Seq<char>) -> Seq<char>;

/// Whether a regular expression matches somewhere in a text, by
/// `regex::Regex::is_match`.
pub uninterp spec fn regex_matches(pattern: Seq<char>, text: Seq<char>) -> bool;

/// Compiles `pattern` with `Regex::new` and keeps only whether it
/// compiled, with the error's text when not; both depend on the pattern
/// alone.
#[verifier::external_body]
pub(crate) fn regex_check(pattern: &str) -> (r: Result<(), String>)
    ensures
        r is Ok <==> regex_compiles(pattern@),
        r matches Err(m) ==> m@ == regex_error_text(pattern@),
{
    match regex::Regex::new(pattern) {
        Ok(_) => Ok(()),
        Err(e) => Err(e.to_string()),
    }
}

/// Whether the compiled `pattern` matches somewhere in `text`, by
/// `Regex::new` and `Regex::is_match`. The pattern must compile.
#[verifier::external_body]
pub(crate) fn regex_is_match(pattern: &str, text: &str) -> (r: bool)
    requires
        regex_compiles(pattern@),
    ensures
        r == regex_matches(pattern@, text@),
{
    regex::Regex::new(pattern).unwrap().is_match(text)
}

/// Whether `args` is empty once trimmed.
fn trimmed_empty(args: &str) -> (r: bool)
    ensures
        r == (trim(args@).len() == 0),
{
    let v = chars_of(args);
    let (a, b) = trim_bounds(&v, 0, v.len());
    assert(v@.subrange(0, v@.len() as int) =~= v@);
    a == b
}

/// The words of `args`, as `str::split_whitespace` gives them.
fn words(args: &str) -> (r: Vec<String>)
    ensures
        crate::text::string_views(r@) == split_nonempty(args@, Sep::Whitespace),
{
    let v = chars_of(args);
    let parts = split_chars_nonempty(&v, Sep::Whitespace);
    let mut out: Vec<String> = Vec::new();
    let mut i: usize = 0;
    while i < parts.len()
        invariant
            i <= parts.len(),
            crate::text::string_views(out@) == views(parts@).take(i as int),
        decreases parts.len() - i,
    {
        let s = string_of_all(&parts[i]);
        let ghost before = crate::text::string_views(out@);
        assert(s@ == views(parts@)[i as int]);
        out.push(s);
        assert(crate::text::string_views(out@) =~= before.push(s@));
        assert(views(parts@).take(i + 1) =~= views(parts@).take(i as int).push(views(parts@)[i as int]));
        i = i + 1;
    }
    assert(views(parts@).take(parts@.len() as int) =~= views(parts@));
    out
}

/// The `http-sni-probe` command; the probe has no behaviour yet.
pub struct HttpSniProbeCommandExecuter {}

impl HttpSniProbeCommandExecuter {
    pub fn new() -> Self {
        HttpSniProbeCommandExecuter {  }
    }
}

impl CommandParser for HttpSniProbeCommandExecuter {
    open spec fn accepts(&self, args: Seq<char>) -> bool {
        trim(args).len() == 0
    }

    open spec fn builds(&self, args: Seq<char>) -> ExecutorModel {
        ExecutorModel::HttpSniProbe
    }

    /// Accepts blank arguments only.
    fn parse(&self, args: &str) -> (r: Result<CommandExecuterRef, String>)
        ensures
            r is Ok <==> trim(args@).len() == 0,
            r matches Err(m) ==> m@ == "Invalid http-sni-probe command: "@ + args@,
    {
        if !trimmed_empty(args) {
            let mut msg = owned("Invalid http-sni-probe command: ");
            msg.append(args);
            return Err(msg);
        }
        let cmd = HttpSniProbeCommandExecuter::new();
        let ghost m = cmd.model();
        let b: Box<dyn CommandExecuter> = Box::new(cmd);
        assert((*b).model() == m);
        let r = Arc::new(b);
        assert((**r).model() == m);
        Ok(r)
    }
}

impl CommandExecuter for HttpSniProbeCommandExecuter {
    open spec fn model(&self) -> ExecutorModel {
        ExecutorModel::HttpSniProbe
    }

    fn exec(&self, context: &mut Context) -> (r: Result<CommandResult, String>) {
        Err(owned("http-sni-probe is not available"))
    }
}

/// Whether reading `key` from `context` needs nothing the context lacks:
/// a header name it reaches must be ASCII.
pub open spec fn key_readable(context: Context, key: Seq<char>) -> bool {
    key_touches_header(context.resp_headers() is Some, key) ==> all_ascii(key_header(key))
}

/// The result of matching the value of `key` against `pattern`: failure 1
/// without a value, failure 2 without a match.
pub open spec fn match_result(context: Context, key: Seq<char>, pattern: Seq<char>) -> ResultModel {
    match value_of(context.req_headers(), context.resp_headers(), key) {
        None => failure_model(1),
        Some(v) => if regex_matches(pattern, v) {
            success_model()
        } else {
            failure_model(2)
        },
    }
}

/// Law: `match` succeeds exactly when the key has a value that the
/// pattern matches; it fails with code 1 when the key has no value and
/// with code 2 when the pattern does not match the value.
pub proof fn law_match_outcome(context: Context, key: Seq<char>, pattern: Seq<char>)
    ensures
        match_result(context, key, pattern).success <==> (value_of(
            context.req_headers(),
            context.resp_headers(),
            key,
        ) matches Some(v) && regex_matches(pattern, v)),
        match_result(context, key, pattern).action == ActionModel::Continue,
        value_of(context.req_headers(), context.resp_headers(), key) is None ==> match_result(
            context,
            key,
            pattern,
        ) == failure_model(1),
        value_of(context.req_headers(), context.resp_headers(), key) matches Some(v) && !regex_matches(
            pattern,
            v,
        ) ==> match_result(context, key, pattern) == failure_model(2),
{
}

/// `match KEY PATTERN`: whether the value of a key matches a regular
/// expression.
pub struct MatchCommandExecuter {
    pub key: String,
    pub pattern: String,
}

impl CommandParser for MatchCommandExecuter {
    open spec fn accepts(&self, args: Seq<char>) -> bool {
        let parts = split_nonempty(args, Sep::Whitespace);
        parts.len() == 2 && regex_compiles(parts[1])
    }

    open spec fn builds(&self, args: Seq<char>) -> ExecutorModel {
        let parts = split_nonempty(args, Sep::Whitespace);
        ExecutorModel::Match(parts[0], parts[1])
    }

    /// Accepts exactly two words, the second a regular expression that
    /// compiles.
    fn parse(&self, args: &str) -> (r: Result<CommandExecuterRef, String>)
        ensures
            ({
                let parts = split_nonempty(args@, Sep::Whitespace);
                &&& r is Ok <==> parts.len() == 2 && regex_compiles(parts[1])
                &&& parts.len() != 2 ==> (r matches Err(m) && m@ == "Invalid match command"@)
                &&& parts.len() == 2 && !regex_compiles(parts[1]) ==> (r matches Err(m) && m@
                    == "Invalid pattern: "@ + regex_error_text(parts[1]))
            }),
    {
        let parts = words(args);
        if parts.len() != 2 {
            return Err(owned("Invalid match command"));
        }
        match regex_check(parts[1].as_str()) {
            Err(e) => {
                let mut msg = owned("Invalid pattern: ");
                msg.append(e.as_str());
                Err(msg)
            },
            Ok(()) => {
                let cmd = MatchCommandExecuter {
                    key: owned(parts[0].as_str()),
                    pattern: owned(parts[1].as_str()),
                };
                let ghost m = cmd.model();
                let b: Box<dyn CommandExecuter> = Box::new(cmd);
                assert((*b).model() == m);
                let r = Arc::new(b);
                assert((**r).model() == m);
                Ok(r)
            },
        }
    }
}

impl CommandExecuter for MatchCommandExecuter {
    open spec fn model(&self) -> ExecutorModel {
        ExecutorModel::Match(self.key@, self.pattern@)
    }

    fn exec(&self, context: &mut Context) -> (r: Result<CommandResult, String>)
        ensures
            r matches Ok(x) && x@ == match_result(*old(context), self.key@, self.pattern@),
            *final(context) == *old(context),
    {
        let value = context.get_value(self.key.as_str());
        match value {
            None => Ok(CommandResult::failure(1)),
            Some(v) => {
                if regex_is_match(self.pattern.as_str(), v.as_str()) {
                    Ok(CommandResult::success())
                } else {
                    Ok(CommandResult::failure(2))
                }
            },
        }
    }
}

/// `EXEC app`: runs an outside application; it has no behaviour yet.
pub struct ExternalCommandExecuter {
    pub command: String,
}

impl CommandParser for ExternalCommandExecuter {
    open spec fn accepts(&self, args: Seq<char>) -> bool {
        trim(args).len() > 0
    }

    open spec fn builds(&self, args: Seq<char>) -> ExecutorModel {
        ExecutorModel::External(args)
    }

    /// Accepts any argument text that is not blank, as the command.
    fn parse(&self, args: &str) -> (r: Result<CommandExecuterRef, String>)
        ensures
            r is Ok <==> trim(args@).len() > 0,
            r matches Err(m) ==> m@ == "Invalid exec command: "@ + args@,
    {
        if trimmed_empty(args) {
            let mut msg = owned("Invalid exec command: ");
            msg.append(args);
            return Err(msg);
        }
        let cmd = ExternalCommandExecuter { command: owned(args) };
        let ghost m = cmd.model();
        let b: Box<dyn CommandExecuter> = Box::new(cmd);
        assert((*b).model() == m);
        let r = Arc::new(b);
        assert((**r).model() == m);
        Ok(r)
    }
}

impl CommandExecuter for ExternalCommandExecuter {
    open spec fn model(&self) -> ExecutorModel {
        ExecutorModel::External(self.command@)
    }

    fn exec(&self, context: &mut Context) -> (r: Result<CommandResult, String>) {
        Err(owned("exec is not available"))
    }
}

/// Whether the labels the host store holds for `host`, if any, are all
/// ASCII, as a header value must be.
pub open spec fn host_labels_ascii(context: Context, host: Seq<char>) -> bool {
    context.host_map().contains_key(host) ==> forall|l: Seq<char>|
        #[trigger] context.host_map()[host].contains(l) ==> all_ascii(l)
}

/// What setting the label header from the host store does: the label
/// header becomes the host's labels joined with commas; a host the store
/// lacks changes nothing.
pub open spec fn labels_from_host(before: Context, after: Context, host: Seq<char>) -> bool {
    &&& after.host_map() == before.host_map()
    &&& after.resp_headers() == before.resp_headers()
    &&& !before.host_map().contains_key(host) ==> after.req_headers() == before.req_headers()
    &&& before.host_map().contains_key(host) ==> exists|s: Seq<char>|
        joins_set(s, before.host_map()[host]) && after.req_headers()
            == before.req_headers().insert(label_header(), seq![s])
}

/// `set_label_by_host_db KEY`: sets the label header from the labels the
/// host store holds for the value of a key.
pub struct SetLabelByHostDbCommandExecuter {
    pub key: String,
}

impl SetLabelByHostDbCommandExecuter {
    pub fn new(key: &str) -> (r: Self)
        ensures
            r.key@ == key@,
    {
        SetLabelByHostDbCommandExecuter { key: owned(key) }
    }
}

/// The message refusing `set_label_by_host_db` arguments.
pub open spec fn set_label_message(args: Seq<char>) -> Seq<char> {
    "Invalid set_label_by_host_db command: "@ + trim(args)
}

impl CommandParser for SetLabelByHostDbCommandExecuter {
    open spec fn accepts(&self, args: Seq<char>) -> bool {
        split_nonempty(trim(args), Sep::Whitespace).len() == 1
    }

    open spec fn builds(&self, args: Seq<char>) -> ExecutorModel {
        ExecutorModel::SetLabelByHostDb(trim(args))
    }

    /// Accepts exactly one word, the key.
    fn parse(&self, args: &str) -> (r: Result<CommandExecuterRef, String>)
        ensures
            r is Ok <==> split_nonempty(trim(args@), Sep::Whitespace).len() == 1,
            r matches Err(m) ==> m@ == set_label_message(args@),
    {
        let v = chars_of(args);
        let t = trimmed_string(&v, 0, v.len());
        assert(v@.subrange(0, v@.len() as int) =~= v@);
        if t.unicode_len() == 0 {
            proof {
                assert(split_nonempty(t@, Sep::Whitespace).len() == 0) by {
                    crate::text::lemma_filter_push(Seq::empty(), Seq::empty());
                    reveal(Seq::filter);
                    assert(split_all(t@, Sep::Whitespace) == Seq::<Seq<char>>::empty().push(
                        Seq::<char>::empty(),
                    ));
                    assert(Seq::<Seq<char>>::empty().filter(|p: Seq<char>| crate::text::nonempty(p))
                        =~= Seq::<Seq<char>>::empty());
                }
            }
            let mut msg = owned("Invalid set_label_by_host_db command: ");
            msg.append(t.as_str());
            return Err(msg);
        }
        let parts = words(t.as_str());
        if parts.len() != 1 {
            let mut msg = owned("Invalid set_label_by_host_db command: ");
            msg.append(t.as_str());
            return Err(msg);
        }
        let cmd = SetLabelByHostDbCommandExecuter::new(t.as_str());
        let ghost m = cmd.model();
        let b: Box<dyn CommandExecuter> = Box::new(cmd);
        assert((*b).model() == m);
        let r = Arc::new(b);
        assert((**r).model() == m);
        Ok(r)
    }
}

impl CommandExecuter for SetLabelByHostDbCommandExecuter {
    open spec fn model(&self) -> ExecutorModel {
        ExecutorModel::SetLabelByHostDb(self.key@)
    }

    fn exec(&self, context: &mut Context) -> (r: Result<CommandResult, String>)
        ensures
            ({
                let value = value_of(old(context).req_headers(), old(context).resp_headers(), self.key@);
                &&& value is None ==> (r matches Ok(x) && x@ == failure_model(1) && *final(context)
                    == *old(context))
                &&& value matches Some(v) ==> (r matches Ok(x) && x@ == success_model()
                    && labels_from_host(*old(context), *final(context), v))
            }),
    {
        let value = context.get_value(self.key.as_str());
        match value {
            None => Ok(CommandResult::failure(1)),
            Some(v) => {
                context.set_label_from_host_db(v.as_str());
                Ok(CommandResult::success())
            },
        }
    }
}

/// `have_label KEY LABEL`: whether the value of a key, split at commas,
/// holds a label.
pub struct HaveLabelCommandExecuter {
    pub key: String,
    pub label: String,
}

impl HaveLabelCommandExecuter {
    pub fn new(key: &str, label: &str) -> (r: Self)
        ensures
            r.key@ == key@,
            r.label@ == label@,
    {
        HaveLabelCommandExecuter { key: owned(key), label: owned(label) }
    }
}

/// The result of looking for `label` among the comma-separated labels in
/// the value of `key`: failure 1 without a value, failure 2 without the
/// label.
pub open spec fn have_label_result(context: Context, key: Seq<char>, label: Seq<char>) -> ResultModel {
    match value_of(context.req_headers(), context.resp_headers(), key) {
        None => failure_model(1),
        Some(v) => if split_all(v, Sep::Comma).contains(label) {
            success_model()
        } else {
            failure_model(2)
        },
    }
}

/// Lemma: in a text that starts with a piece without commas and then a
/// comma, that piece is the first one.
pub proof fn lemma_first_comma_piece(a: Seq<char>, rest: Seq<char>)
    requires
        forall|j: int| 0 <= j < a.len() ==> #[trigger] a[j] != ',',
    ensures
        split_state(a.push(',') + rest, Sep::Comma).0.len() >= 1,
        split_state(a.push(',') + rest, Sep::Comma).0[0] == a,
        split_all(a.push(',') + rest, Sep::Comma)[0] == a,
    decreases rest.len(),
{
    let s = a.push(',') + rest;
    if rest.len() == 0 {
        assert forall|j: int| 0 <= j < a.len() implies !is_sep(Sep::Comma, #[trigger] a[j]) by {}
        lemma_split_state_without_sep(a, Sep::Comma);
        assert(s =~= a.push(','));
        assert(s.drop_last() =~= a);
    } else {
        lemma_first_comma_piece(a, rest.drop_last());
        assert(s.drop_last() =~= a.push(',') + rest.drop_last());
    }
}

/// Law: `have_label` finds the label at any position among the
/// comma-separated pieces of the key's value, the first one included.
pub proof fn law_have_label_any_piece(
    context: Context,
    key: Seq<char>,
    label: Seq<char>,
    v: Seq<char>,
    j: int,
)
    requires
        value_of(context.req_headers(), context.resp_headers(), key) == Some(v),
        0 <= j < split_all(v, Sep::Comma).len(),
        split_all(v, Sep::Comma)[j] == label,
    ensures
        have_label_result(context, key, label) == success_model(),
{
}

/// Law: a value that starts with the label (a text without commas)
/// followed by a comma, or that is the label itself, has the label.
pub proof fn law_have_label_first(context: Context, key: Seq<char>, label: Seq<char>, rest: Seq<char>)
    requires
        forall|j: int| 0 <= j < label.len() ==> #[trigger] label[j] != ',',
    ensures
        value_of(context.req_headers(), context.resp_headers(), key) == Some(label.push(',') + rest)
            ==> have_label_result(context, key, label) == success_model(),
        value_of(context.req_headers(), context.resp_headers(), key) == Some(label)
            ==> have_label_result(context, key, label) == success_model(),
{
    lemma_first_comma_piece(label, rest);
    let v = label.push(',') + rest;
    if value_of(context.req_headers(), context.resp_headers(), key) == Some(v) {
        law_have_label_any_piece(context, key, label, v, 0);
    }
    assert forall|j: int| 0 <= j < label.len() implies !is_sep(Sep::Comma, #[trigger] label[j]) by {}
    lemma_split_without_sep(label, Sep::Comma);
    if value_of(context.req_headers(), context.resp_headers(), key) == Some(label) {
        law_have_label_any_piece(context, key, label, label, 0);
    }
}

/// Law: `have_label` fails with code 1 when the key has no value, and
/// with code 2 when no comma-separated piece of the value is the label.
pub proof fn law_have_label_fails(context: Context, key: Seq<char>, label: Seq<char>)
    ensures
        value_of(context.req_headers(), context.resp_headers(), key) is None ==> have_label_result(
            context,
            key,
            label,
        ) == failure_model(1),
        value_of(context.req_headers(), context.resp_headers(), key) matches Some(v) && (forall|
            j: int,
        | 0 <= j < split_all(v, Sep::Comma).len() ==> #[trigger] split_all(v, Sep::Comma)[j]
            != label) ==> have_label_result(context, key, label) == failure_model(2),
{
}

/// Law: once the label header is set from the labels the host store
/// holds for a host (labels without commas), `have_label` on
/// `REQ_HEADER.label` finds each of those labels.
pub proof fn law_host_labels_found(before: Context, after: Context, host: Seq<char>, l: Seq<char>)
    requires
        labels_from_host(before, after, host),
        before.host_map().contains_key(host),
        before.host_map()[host].contains(l),
        forall|x: Seq<char>, j: int|
            #![trigger before.host_map()[host].contains(x), x[j]]
            before.host_map()[host].contains(x) && 0 <= j < x.len() ==> x[j] != ',',
    ensures
        have_label_result(after, "REQ_HEADER.label"@, l) == success_model(),
{
    let labels = before.host_map()[host];
    let s = choose|s: Seq<char>|
        joins_set(s, labels) && after.req_headers() == before.req_headers().insert(
            label_header(),
            seq![s],
        );
    let q = choose|q: Seq<Seq<char>>|
        #![trigger q.to_set()]
        q.to_set() == labels && q.no_duplicates() && join(q, ',') == s;
    assert(q.to_set().contains(l));
    assert(q.contains(l));
    assert forall|i: int, j: int| 0 <= i < q.len() && 0 <= j < q[i].len() implies #[trigger] q[i][j]
        != ',' by {
        assert(q.to_set().contains(q[i]));
        assert(labels.contains(q[i]));
    }
    lemma_split_join(q);
    lemma_req_label_key();
    law_req_value_after_set(
        before.req_headers(),
        before.resp_headers(),
        "REQ_HEADER.label"@,
        s,
    );
    assert(value_of(after.req_headers(), after.resp_headers(), "REQ_HEADER.label"@) == Some(s));
}

/// Whether one of the comma-separated pieces of `text` is `label`.
pub(crate) fn has_comma_piece(text: &str, label: &str) -> (r: bool)
    ensures
        r == split_all(text@, Sep::Comma).contains(label@),
{
    let v = chars_of(text);
    let lv = chars_of(label);
    let parts = split_chars(&v, Sep::Comma);
    let mut i: usize = 0;
    while i < parts.len()
        invariant
            i <= parts.len(),
            lv@ == label@,
            views(parts@) == split_all(text@, Sep::Comma),
            forall|j: int| 0 <= j < i ==> views(parts@)[j] != label@,
        decreases parts.len() - i,
    {
        assert(views(parts@)[i as int] == parts@[i as int]@);
        if chars_eq(&parts[i], &lv) {
            return true;
        }
        i = i + 1;
    }
    false
}

impl CommandParser for HaveLabelCommandExecuter {
    open spec fn accepts(&self, args: Seq<char>) -> bool {
        split_nonempty(args, Sep::Whitespace).len() == 2
    }

    open spec fn builds(&self, args: Seq<char>) -> ExecutorModel {
        let parts = split_nonempty(args, Sep::Whitespace);
        ExecutorModel::HaveLabel(parts[0], parts[1])
    }

    /// Accepts exactly two words, the key and the label.
    fn parse(&self, args: &str) -> (r: Result<CommandExecuterRef, String>)
        ensures
            r is Ok <==> split_nonempty(args@, Sep::Whitespace).len() == 2,
            r matches Err(m) ==> m@ == "Invalid have_label command: "@ + args@,
    {
        let parts = words(args);
        if parts.len() != 2 {
            let mut msg = owned("Invalid have_label command: ");
            msg.append(args);
            return Err(msg);
        }
        let cmd = HaveLabelCommandExecuter::new(parts[0].as_str(), parts[1].as_str());
        let ghost m = cmd.model();
        let b: Box<dyn CommandExecuter> = Box::new(cmd);
        assert((*b).model() == m);
        let r = Arc::new(b);
        assert((**r).model() == m);
        Ok(r)
    }
}

impl CommandExecuter for HaveLabelCommandExecuter {
    open spec fn model(&self) -> ExecutorModel {
        ExecutorModel::HaveLabel(self.key@, self.label@)
    }

    fn exec(&self, context: &mut Context) -> (r: Result<CommandResult, String>)
        ensures
            r matches Ok(x) && x@ == have_label_result(*old(context), self.key@, self.label@),
            *final(context) == *old(context),
    {
        let labels = context.get_value(self.key.as_str());
        match labels {
            None => Ok(CommandResult::failure(1)),
            Some(v) => {
                if has_comma_piece(v.as_str(), self.label.as_str()) {
                    Ok(CommandResult::success())
                } else {
                    Ok(CommandResult::failure(2))
                }
            },
        }
    }
}

} // verus!
