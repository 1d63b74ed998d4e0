//! The command line of the probe tool.

use super::steps::ProbeCommand;
use crate::text;
use crate::text::{parse_number, push_text, same_text};
use vstd::prelude::*;

verus! {

/// What the command line asks for.
#[derive(Debug, Clone, PartialEq, Eq)]
pub struct Args {
    pub port: Option<String>,
    pub baud: u32,
    pub timeout_ms: u64,
    pub command: ProbeCommand,
    pub dump_raw: bool,
    pub record_json: Option<String>,
    pub validate_record: Option<String>,
    pub help: bool,
}

/// The content of [`Args`].
pub struct Request {
    pub port: Option<Seq<char>>,
    pub baud: u32,
    pub timeout_ms: u64,
    pub command: ProbeCommand,
    pub dump_raw: bool,
    pub record_json: Option<Seq<char>>,
    pub validate_record: Option<Seq<char>>,
    pub help: bool,
}

/// The text in an option.
pub open spec fn option_text(s: Option<String>) -> Option<Seq<char>> {
    match s {
        Some(value) => Some(value@),
        None => None,
    }
}

impl View for Args {
    type V = Request;

    open spec fn view(&self) -> Request {
        Request {
            port: option_text(self.port),
            baud: self.baud,
            timeout_ms: self.timeout_ms,
            command: self.command,
            dump_raw: self.dump_raw,
            record_json: option_text(self.record_json),
            validate_record: option_text(self.validate_record),
            help: self.help,
        }
    }
}

/// What an empty command line asks for: the list of ports.
pub open spec fn default_request() -> Request {
    Request {
        port: None,
        baud: 115_200,
        timeout_ms: 1_000,
        command: ProbeCommand::Ping,
        dump_raw: false,
        record_json: None,
        validate_record: None,
        help: false,
    }
}

impl Default for Args {
    fn default() -> (args: Self)
        ensures
            args@ == default_request(),
    {
        Args {
            port: None,
            baud: 115_200,
            timeout_ms: 1_000,
            command: ProbeCommand::Ping,
            dump_raw: false,
            record_json: None,
            validate_record: None,
            help: false,
        }
    }
}

/// The probe that a flag asks for, if it asks for one.
pub open spec fn probe_of_flag(flag: Seq<char>) -> Option<ProbeCommand> {
    if flag == "--matmul-smoke"@ {
        Some(ProbeCommand::MatmulSmoke)
    } else if flag == "--device-info"@ {
        Some(ProbeCommand::DeviceInfo)
    } else if flag == "--bringup-suite"@ {
        Some(ProbeCommand::BringupSuite)
    } else if flag == "--result-smoke"@ {
        Some(ProbeCommand::ResultSmoke)
    } else if flag == "--result-window-smoke"@ {
        Some(ProbeCommand::ResultWindowSmoke)
    } else if flag == "--result-window-status-smoke"@ {
        Some(ProbeCommand::ResultWindowStatusSmoke)
    } else if flag == "--result-oob-smoke"@ {
        Some(ProbeCommand::ResultOobSmoke)
    } else if flag == "--scratch-smoke"@ {
        Some(ProbeCommand::ScratchSmoke)
    } else {
        None
    }
}

/// The probe that a flag asks for, if it asks for one.
fn flag_probe(flag: &String) -> (command: Option<ProbeCommand>)
    ensures
        command == probe_of_flag(flag@),
{
    if same_text(flag, "--matmul-smoke") {
        Some(ProbeCommand::MatmulSmoke)
    } else if same_text(flag, "--device-info") {
        Some(ProbeCommand::DeviceInfo)
    } else if same_text(flag, "--bringup-suite") {
        Some(ProbeCommand::BringupSuite)
    } else if same_text(flag, "--result-smoke") {
        Some(ProbeCommand::ResultSmoke)
    } else if same_text(flag, "--result-window-smoke") {
        Some(ProbeCommand::ResultWindowSmoke)
    } else if same_text(flag, "--result-window-status-smoke") {
        Some(ProbeCommand::ResultWindowStatusSmoke)
    } else if same_text(flag, "--result-oob-smoke") {
        Some(ProbeCommand::ResultOobSmoke)
    } else if same_text(flag, "--scratch-smoke") {
        Some(ProbeCommand::ScratchSmoke)
    } else {
        None
    }
}

/// What an option says when its value is missing; nothing for what is no option with a value.
pub open spec fn missing_value(option: Seq<char>) -> Option<Seq<char>> {
    if option == "--port"@ {
        Some("--port requires a value like COM3"@)
    } else if option == "--baud"@ {
        Some("--baud requires a numeric value"@)
    } else if option == "--timeout-ms"@ {
        Some("--timeout-ms requires a numeric value"@)
    } else if option == "--record-json"@ {
        Some("--record-json requires an output path"@)
    } else if option == "--validate-record"@ {
        Some("--validate-record requires an input path"@)
    } else {
        None
    }
}

/// What an option says when its value is missing; nothing for what is no option with a value.
fn missing_value_text(option: &String) -> (complaint: Option<&'static str>)
    ensures
        complaint is Some <==> missing_value(option@) is Some,
        complaint matches Some(c) ==> missing_value(option@) == Some(c@),
{
    if same_text(option, "--port") {
        Some("--port requires a value like COM3")
    } else if same_text(option, "--baud") {
        Some("--baud requires a numeric value")
    } else if same_text(option, "--timeout-ms") {
        Some("--timeout-ms requires a numeric value")
    } else if same_text(option, "--record-json") {
        Some("--record-json requires an output path")
    } else if same_text(option, "--validate-record") {
        Some("--validate-record requires an input path")
    } else {
        None
    }
}

/// What a request becomes by an option with a value, or what is wrong with the value.
pub open spec fn with_value(option: Seq<char>, value: Seq<char>, request: Request) -> Result<
    Request,
    Seq<char>,
> {
    if option == "--port"@ {
        Ok(Request { port: Some(value), ..request })
    } else if option == "--baud"@ {
        match text::number(value, u32::MAX as nat) {
            Some(n) => Ok(Request { baud: n as u32, ..request }),
            None => Err("invalid --baud value: "@ + value),
        }
    } else if option == "--timeout-ms"@ {
        match text::number(value, u64::MAX as nat) {
            Some(n) => Ok(Request { timeout_ms: n as u64, ..request }),
            None => Err("invalid --timeout-ms value: "@ + value),
        }
    } else if option == "--record-json"@ {
        Ok(Request { record_json: Some(value), ..request })
    } else {
        Ok(Request { validate_record: Some(value), ..request })
    }
}

/// What a command line asks for in addition to `request`, or what is wrong with it. The
/// first fault counts; a call for help ends the reading.
pub open spec fn parsed(raw: Seq<Seq<char>>, request: Request) -> Result<Request, Seq<char>>
    decreases raw.len(),
{
    if raw.len() == 0 {
        Ok(request)
    } else if raw[0] == "--help"@ || raw[0] == "-h"@ {
        Ok(Request { help: true, ..request })
    } else if raw[0] == "--list"@ {
        parsed(raw.skip(1), Request { port: None, ..request })
    } else if raw[0] == "--dump-raw"@ {
        parsed(raw.skip(1), Request { dump_raw: true, ..request })
    } else if probe_of_flag(raw[0]) is Some {
        parsed(raw.skip(1), Request { command: probe_of_flag(raw[0])->0, ..request })
    } else if missing_value(raw[0]) is Some {
        if raw.len() < 2 {
            Err(missing_value(raw[0])->0)
        } else {
            match with_value(raw[0], raw[1], request) {
                Ok(next) => parsed(raw.skip(2), next),
                Err(complaint) => Err(complaint),
            }
        }
    } else {
        Err("unknown argument: "@ + raw[0])
    }
}

/// The texts of a list of strings.
pub open spec fn words(raw: Seq<String>) -> Seq<Seq<char>> {
    raw.map_values(|s: String| s@)
}

/// What is wrong with the value of an option.
fn invalid_value(complaint: &str, value: &String) -> (out: String)
    ensures
        out@ == complaint@ + value@,
{
    let mut out = complaint.to_owned();
    push_text(&mut out, value.as_str());
    out
}

/// Takes in an option with its value.
fn take_value(option: &String, value: &String, args: Args) -> (result: Result<Args, String>)
    ensures
        match with_value(option@, value@, args@) {
            Ok(request) => result matches Ok(next) && next@ == request,
            Err(complaint) => result matches Err(e) && e@ == complaint,
        },
{
    let mut args = args;
    if same_text(option, "--port") {
        args.port = Some(value.clone());
    } else if same_text(option, "--baud") {
        match parse_number(value.as_str(), u32::MAX as u64) {
            Some(n) => {
                args.baud = n as u32;
            },
            None => return Err(invalid_value("invalid --baud value: ", value)),
        }
    } else if same_text(option, "--timeout-ms") {
        match parse_number(value.as_str(), u64::MAX) {
            Some(n) => {
                args.timeout_ms = n;
            },
            None => return Err(invalid_value("invalid --timeout-ms value: ", value)),
        }
    } else if same_text(option, "--record-json") {
        args.record_json = Some(value.clone());
    } else {
        args.validate_record = Some(value.clone());
    }
    Ok(args)
}

/// Reads the command line, without the name of the program.
pub fn parse_args(raw: Vec<String>) -> (result: Result<Args, String>)
    ensures
        match parsed(words(raw@), default_request()) {
            Ok(request) => result matches Ok(args) && args@ == request,
            Err(complaint) => result matches Err(e) && e@ == complaint,
        },
{
    let mut args: Args = Args::default();
    let ghost all = words(raw@);
    let ghost outcome = parsed(all, default_request());
    let mut idx: usize = 0;
    let len: usize = raw.len();
    assert(all.skip(0) =~= all);
    while idx < len
        invariant
            len == raw@.len(),
            idx <= len,
            all == words(raw@),
            outcome == parsed(all, default_request()),
            outcome == parsed(all.skip(idx as int), args@),
        decreases len - idx,
    {
        let ghost rest = all.skip(idx as int);
        let option: &String = &raw[idx];
        assert(rest[0] == option@);
        if same_text(option, "--help") || same_text(option, "-h") {
            args.help = true;
            return Ok(args);
        }
        if same_text(option, "--list") {
            args.port = None;
            assert(rest.skip(1) =~= all.skip(idx + 1));
            idx = idx + 1;
        } else if same_text(option, "--dump-raw") {
            args.dump_raw = true;
            assert(rest.skip(1) =~= all.skip(idx + 1));
            idx = idx + 1;
        } else if let Some(command) = flag_probe(option) {
            args.command = command;
            assert(rest.skip(1) =~= all.skip(idx + 1));
            idx = idx + 1;
        } else if let Some(complaint) = missing_value_text(option) {
            if len - idx < 2 {
                return Err(complaint.to_owned());
            }
            let value: &String = &raw[idx + 1];
            assert(rest[1] == value@);
            assert(rest.skip(2) =~= all.skip(idx + 2));
            args = match take_value(option, value, args) {
                Ok(next) => next,
                Err(e) => return Err(e),
            };
            idx = idx + 2;
        } else {
            return Err(invalid_value("unknown argument: ", option));
        }
    }
    Ok(args)
}

/// A command line is read from front to back: what its later part asks for is added to what
/// its earlier part asked for, wherever it is cut between two options.
pub proof fn law_reading_goes_on(first: Seq<Seq<char>>, later: Seq<Seq<char>>, request: Request)
    requires
        parsed(first, request) is Ok,
        !(parsed(first, request)->Ok_0).help,
        !request.help,
    ensures
        parsed(first + later, request) == parsed(later, parsed(first, request)->Ok_0),
    decreases first.len(),
{
    if first.len() == 0 {
        assert(first + later =~= later);
    } else {
        let whole = first + later;
        assert(whole[0] == first[0]);
        assert(whole.skip(1) =~= first.skip(1) + later);
        if first[0] == "--help"@ || first[0] == "-h"@ {
        } else if first[0] == "--list"@ {
            law_reading_goes_on(first.skip(1), later, Request { port: None, ..request });
        } else if first[0] == "--dump-raw"@ {
            law_reading_goes_on(first.skip(1), later, Request { dump_raw: true, ..request });
        } else if probe_of_flag(first[0]) is Some {
            law_reading_goes_on(
                first.skip(1),
                later,
                Request { command: probe_of_flag(first[0])->0, ..request },
            );
        } else if missing_value(first[0]) is Some {
            assert(whole[1] == first[1]);
            assert(whole.skip(2) =~= first.skip(2) + later);
            law_reading_goes_on(
                first.skip(2),
                later,
                with_value(first[0], first[1], request)->Ok_0,
            );
        }
    }
}

} // verus!
