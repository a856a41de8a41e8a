//! Command parsers by name, for commands whose arguments come as words,
//! and the standard set of them.
use vstd::prelude::*;
use std::sync::Arc;
use crate::process_chain::block::cmd::cmd::{
    CommandAction, CommandExecutorRef, CommandParser, CommandParserRef,
};
use crate::process_chain::block::cmd::sni::HttpSniProbeCommandParser;
use crate::registry::{entry_views, find_latest, latest_map, share};
use crate::text::{owned, string_views};
use crate::warp::block::cmd::action::ActionCommandParser;
use crate::warp::block::cmd::assign::AssignCommandParser;
use crate::warp::block::cmd::external::ExternalCommandParser;
use crate::warp::block::cmd::label::{HaveLabelCommandParser, SetLabelByHostDbCommandParser};
use crate::warp::block::cmd::match_::MatchCommandParser;
use vstd::string::StringExecFns;

verus! {

broadcast use vstd::std_specs::vec::group_vec_axioms;

/// The message for a command name with no parser.
pub open spec fn parser_not_found_message(name: Seq<char>) -> Seq<char> {
    "Command parser "@ + name + " not found"@
}

/// The names `init` registers.
pub open spec fn standard_commands() -> Set<Seq<char>> {
    set![
        "DROP"@,
        "PASS"@,
        "assign"@,
        "match"@,
        "EXEC"@,
        "set_label_by_host_db"@,
        "have_label"@,
        "http-sni-probe"@,
    ]
}

/// Command parsers by name.
pub struct CommandParserFactory {
    parsers: Vec<(String, CommandParserRef)>,
}

impl CommandParserFactory {
    /// The parsers by name.
    pub closed spec fn parsers(&self) -> Map<Seq<char>, CommandParserRef> {
        latest_map(entry_views(self.parsers@))
    }

    pub fn new() -> (r: Self)
        ensures
            r.parsers() == Map::<Seq<char>, CommandParserRef>::empty(),
    {
        Self { parsers: Vec::new() }
    }

    /// Registers `parser` under `name`, replacing any parser it had.
    pub fn register(&mut self, name: &str, parser: CommandParserRef)
        ensures
            final(self).parsers() == old(self).parsers().insert(name@, parser),
    {
        let ghost before = entry_views(self.parsers@);
        self.parsers.push((owned(name), parser));
        assert(entry_views(self.parsers@).drop_last() =~= before);
    }

    /// The parser registered under `name`.
    pub fn get_parser(&self, name: &str) -> (r: Option<CommandParserRef>)
        ensures
            r is Some <==> self.parsers().contains_key(name@),
            r matches Some(p) ==> p == self.parsers()[name@],
    {
        match find_latest(&self.parsers, name) {
            Some(i) => Some(share(&self.parsers[i].1)),
            None => None,
        }
    }

    /// Parses `args` with the parser registered under `name`; a name with
    /// no parser is refused.
    pub fn parse(&self, name: &str, args: &Vec<String>) -> (r: Result<CommandExecutorRef, String>)
        ensures
            !self.parsers().contains_key(name@) ==> (r matches Err(m) && m@
                == parser_not_found_message(name@)),
            self.parsers().contains_key(name@) ==> (r is Ok <==> self.parsers()[name@].accepts(
                string_views(args@),
            )),
            self.parsers().contains_key(name@) ==> (r matches Ok(e) ==> e.model()
                == self.parsers()[name@].builds(string_views(args@))),
    {
        match self.get_parser(name) {
            None => {
                let mut msg = owned("Command parser ");
                msg.append(name);
                msg.append(" not found");
                Err(msg)
            },
            Some(parser) => parser.parse(args),
        }
    }

    /// Registers the standard commands: `DROP`, `PASS`, `assign`, `match`,
    /// `EXEC`, `set_label_by_host_db`, `have_label` and `http-sni-probe`.
    /// Other names keep their parsers.
    pub fn init(&mut self)
        ensures
            final(self).parsers().dom() == old(self).parsers().dom().union(standard_commands()),
            forall|n: Seq<char>|
                #![trigger final(self).parsers()[n]]
                old(self).parsers().contains_key(n) && !standard_commands().contains(n)
                    ==> final(self).parsers()[n] == old(self).parsers()[n],
    {
        let drop_parser: Box<dyn CommandParser> = Box::new(
            ActionCommandParser::new(CommandAction::Drop),
        );
        self.register("DROP", Arc::new(drop_parser));
        let pass_parser: Box<dyn CommandParser> = Box::new(
            ActionCommandParser::new(CommandAction::Pass),
        );
        self.register("PASS", Arc::new(pass_parser));
        let assign_parser: Box<dyn CommandParser> = Box::new(AssignCommandParser::new());
        self.register("assign", Arc::new(assign_parser));
        let match_parser: Box<dyn CommandParser> = Box::new(MatchCommandParser::new());
        self.register("match", Arc::new(match_parser));
        let exec_parser: Box<dyn CommandParser> = Box::new(ExternalCommandParser::new());
        self.register("EXEC", Arc::new(exec_parser));
        let set_label_parser: Box<dyn CommandParser> = Box::new(
            SetLabelByHostDbCommandParser::new(),
        );
        self.register("set_label_by_host_db", Arc::new(set_label_parser));
        let have_label_parser: Box<dyn CommandParser> = Box::new(HaveLabelCommandParser::new());
        self.register("have_label", Arc::new(have_label_parser));
        let sni_parser: Box<dyn CommandParser> = Box::new(HttpSniProbeCommandParser::new());
        self.register("http-sni-probe", Arc::new(sni_parser));
        assert(self.parsers().dom() =~= old(self).parsers().dom().union(standard_commands()));
    }
}

} // verus!
