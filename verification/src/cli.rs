//! Command-line argument rules of the host tools: hexadecimal addresses,
//! transport selection, and display names of tuple elements.

use vstd::prelude::*;
use vstd::string::*;
use core::num::ParseIntError;
use crate::text::{decimal_text, push_decimal};

verus! {

/// Value of digit `c` in base `radix`: `0-9`, then `a-z` or `A-Z` from 10.
pub open spec fn digit_value(c: char, radix: nat) -> Option<nat> {
    let d: int = if '0' <= c <= '9' {
        c as int - '0' as int
    } else if 'a' <= c <= 'z' {
        c as int - 'a' as int + 10
    } else if 'A' <= c <= 'Z' {
        c as int - 'A' as int + 10
    } else {
        radix as int
    };
    if 0 <= d < radix {
        Some(d as nat)
    } else {
        None
    }
}

/// Value of the digit string `s` in base `radix`, most significant first.
pub open spec fn digits_value(s: Seq<char>, radix: nat) -> Option<nat>
    decreases s.len(),
{
    if s.len() == 0 {
        Some(0)
    } else {
        match (digits_value(s.drop_last(), radix), digit_value(s.last(), radix)) {
            (Some(v), Some(d)) => Some(v * radix + d),
            _ => None,
        }
    }
}

/// What `u64::from_str_radix` accepts: an optional `+`, then at least one
/// digit of the base, with a value that fits in 64 bits.
pub open spec fn parsed_u64(s: Seq<char>, radix: nat) -> Option<u64> {
    let body = if s.len() > 0 && s[0] == '+' {
        s.drop_first()
    } else {
        s
    };
    if body.len() == 0 {
        None
    } else {
        match digits_value(body, radix) {
            Some(v) => if v <= u64::MAX {
                Some(v as u64)
            } else {
                None
            },
            None => None,
        }
    }
}

#[verifier::external_type_specification]
#[verifier::external_body]
pub struct ExParseIntError(ParseIntError);

/// `u64::from_str_radix`: an optional `+` followed by digits of the base;
/// anything else, an empty digit string, or a value above `u64::MAX` is an
/// error.
#[verifier::external_body]
fn u64_from_str_radix(s: &str, radix: u32) -> (r: Result<u64, ParseIntError>)
    requires
        2 <= radix <= 36,
    ensures
        r is Ok <==> parsed_u64(s@, radix as nat) is Some,
        r matches Ok(v) ==> parsed_u64(s@, radix as nat) == Some(v),
{
    u64::from_str_radix(s, radix)
}

/// The `Display` text of a `ParseIntError`. Nothing is stated of it.
#[verifier::external_body]
fn parse_int_error_text(e: &ParseIntError) -> (t: String) {
    e.to_string()
}

/// `s` with a leading `0x` or `0X` removed, if there is one.
pub open spec fn hex_digits_part(s: Seq<char>) -> Seq<char> {
    if s.len() >= 2 && s[0] == '0' && (s[1] == 'x' || s[1] == 'X') {
        s.skip(2)
    } else {
        s
    }
}

/// Parse a hexadecimal `u64`, with or without a `0x` / `0X` prefix.
///
/// Fails, with a message that quotes `s`, exactly where what follows the
/// prefix is not accepted by `u64::from_str_radix` in base 16.
pub fn parse_hex_u64(s: &str) -> (r: Result<u64, String>)
    ensures
        r is Ok <==> parsed_u64(hex_digits_part(s@), 16) is Some,
        r matches Ok(v) ==> parsed_u64(hex_digits_part(s@), 16) == Some(v),
        r matches Err(m) ==> m@.len() >= "invalid hex u64 '"@.len() + s@.len() + "': "@.len()
            && m@.take(("invalid hex u64 '"@ + s@ + "': "@).len() as int) == "invalid hex u64 '"@
            + s@ + "': "@,
{
    let n = s.unicode_len();
    let digits = if n >= 2 && s.get_char(0) == '0' && (s.get_char(1) == 'x' || s.get_char(1)
        == 'X') {
        s.substring_char(2, n)
    } else {
        s
    };
    assert(digits@ =~= hex_digits_part(s@));
    match u64_from_str_radix(digits, 16) {
        Ok(v) => Ok(v),
        Err(e) => {
            let mut m = "invalid hex u64 '".to_owned();
            m.append(s);
            m.append("': ");
            let ghost head = m@;
            m.append(parse_int_error_text(&e).as_str());
            proof {
                reveal_strlit("invalid hex u64 '");
                reveal_strlit("': ");
                assert(head =~= "invalid hex u64 '"@ + s@ + "': "@);
                assert(m@.take(head.len() as int) =~= head);
            }
            Err(m)
        },
    }
}

/// Where the host tools reach the target.
#[derive(Debug, Clone, PartialEq, Eq)]
pub enum TransportSpec {
    /// An in-process loopback target.
    Loopback,
    /// RTT through a debug probe.
    Rtt,
    /// A serial port at the given path.
    Serial(String),
}

/// Whether two strings are equal, by their characters.
pub(crate) fn same_text(a: &str, b: &str) -> (r: bool)
    ensures
        r <==> a@ == b@,
{
    a.to_owned() == b.to_owned()
}

/// Parse a transport: `loopback`, `rtt`, or `serial:<path>` with a
/// nonempty path.
pub fn parse_transport(s: &str) -> (r: Result<TransportSpec, String>)
    ensures
        s@ == "loopback"@ ==> r == Ok::<TransportSpec, String>(TransportSpec::Loopback),
        s@ == "rtt"@ ==> r == Ok::<TransportSpec, String>(TransportSpec::Rtt),
        s@ != "loopback"@ && s@ != "rtt"@ && s@.len() > 7 && s@.take(7) == "serial:"@ ==> (
        r matches Ok(TransportSpec::Serial(p)) && p@ == s@.skip(7)),
        s@ != "loopback"@ && s@ != "rtt"@ && s@.len() == 7 && s@.take(7) == "serial:"@ ==> (
        r matches Err(m) && m@ == "transport 'serial:' requires a non-empty path (got '"@ + s@
            + "')"@),
        s@ != "loopback"@ && s@ != "rtt"@ && !(s@.len() >= 7 && s@.take(7) == "serial:"@) ==> (
        r matches Err(m) && m@ == "unknown transport '"@ + s@
            + "': expected 'loopback' | 'rtt' | 'serial:<path>'"@),
{
    proof {
        reveal_strlit("loopback");
        reveal_strlit("rtt");
    }
    if same_text(s, "loopback") {
        return Ok(TransportSpec::Loopback);
    }
    if same_text(s, "rtt") {
        return Ok(TransportSpec::Rtt);
    }
    let n = s.unicode_len();
    proof {
        reveal_strlit("serial:");
    }
    if n >= 7 && same_text(s.substring_char(0, 7), "serial:") {
        assert(s@.subrange(0, 7) =~= s@.take(7));
        if n > 7 {
            let path = s.substring_char(7, n).to_owned();
            assert(path@ =~= s@.skip(7));
            return Ok(TransportSpec::Serial(path));
        }
        let mut m = "transport 'serial:' requires a non-empty path (got '".to_owned();
        m.append(s);
        m.append("')");
        return Err(m);
    }
    proof {
        if n >= 7 {
            assert(s@.subrange(0, 7) =~= s@.take(7));
        }
    }
    let mut m = "unknown transport '".to_owned();
    m.append(s);
    m.append("': expected 'loopback' | 'rtt' | 'serial:<path>'");
    Err(m)
}

/// The transport back ends the command-line tools offer.
#[derive(Debug, Clone, Copy, PartialEq, Eq, Structural)]
pub enum TransportKind {
    /// probe-rs RTT over a debug probe.
    Rtt,
    /// A CDC-ACM or UART serial port.
    Serial,
}

/// The transport actually used: a serial port given while RTT is selected
/// means serial.
pub fn effective_transport(kind: TransportKind, port_given: bool) -> (r: TransportKind)
    ensures
        r == (if kind == TransportKind::Rtt && port_given {
            TransportKind::Serial
        } else {
            kind
        }),
{
    match kind {
        TransportKind::Rtt => if port_given {
            TransportKind::Serial
        } else {
            TransportKind::Rtt
        },
        TransportKind::Serial => TransportKind::Serial,
    }
}

/// The transport options of the host tools.
pub struct TransportArgs {
    /// The transport back end asked for.
    pub transport: TransportKind,
    /// Target chip name (RTT only).
    pub chip: String,
    /// Address of the RTT control block (RTT only).
    pub rtt_control_block_addr: u64,
    /// Whether to leave the chip unreset when the control block is not found.
    pub no_reset: bool,
    /// Serial port path (serial only).
    pub port: Option<String>,
    /// Serial baud rate (serial only).
    pub baud: u32,
}

/// The options of the interactive shell.
pub struct ShellArgs {
    /// How to reach the target.
    pub transport: TransportArgs,
    /// Where firmware debug logs go, if not to the default log file.
    pub log_file: Option<String>,
    /// A command line to run once instead of the interactive prompt.
    pub exec_line: Vec<String>,
}

/// The options of the MCP server.
pub struct McpArgs {
    /// How to reach the target.
    pub transport: TransportArgs,
}

/// The subcommands of the host tool.
pub enum Command {
    /// The interactive shell.
    Shell(ShellArgs),
    /// The MCP server.
    Mcp(McpArgs),
}

/// The host tool's command line.
pub struct Cli {
    /// The subcommand to run.
    pub command: Command,
}

/// The transport used for `args`: serial where a port is given, even with
/// RTT selected.
pub open spec fn effective_kind_of(args: TransportArgs) -> TransportKind {
    if args.transport == TransportKind::Rtt && args.port is Some {
        TransportKind::Serial
    } else {
        args.transport
    }
}

impl TransportArgs {
    /// The transport actually used: a serial port given while RTT is
    /// selected means serial.
    pub fn effective_kind(&self) -> (r: TransportKind)
        ensures
            r == effective_kind_of(*self),
    {
        effective_transport(self.transport, self.port.is_some())
    }
}

/// The transport to open, with what opening it needs.
pub enum TransportTarget {
    /// RTT on `chip`, with the control block at `control_block_addr`; the
    /// chip is reset when the block is not found if `reset` holds.
    Rtt { chip: String, control_block_addr: u64, reset: bool },
    /// The serial port at `port`, at `baud`.
    Serial { port: String, baud: u32 },
}

/// The transport that `args` ask for. A serial transport without a port is
/// an error.
pub fn transport_target(args: &TransportArgs) -> (r: Result<TransportTarget, String>)
    ensures
        effective_kind_of(*args) == TransportKind::Rtt ==> (r matches Ok(
            TransportTarget::Rtt { chip, control_block_addr, reset },
        ) && chip@ == args.chip@ && control_block_addr == args.rtt_control_block_addr && reset
            == !args.no_reset),
        effective_kind_of(*args) == TransportKind::Serial && args.port is Some ==> (r matches Ok(
            TransportTarget::Serial { port, baud },
        ) && port@ == args.port->0@ && baud == args.baud),
        effective_kind_of(*args) == TransportKind::Serial && args.port is None ==> (r matches Err(
            m,
        ) && m@ == "--port is required for serial transport"@),
{
    match args.effective_kind() {
        TransportKind::Rtt => Ok(
            TransportTarget::Rtt {
                chip: args.chip.clone(),
                control_block_addr: args.rtt_control_block_addr,
                reset: !args.no_reset,
            },
        ),
        TransportKind::Serial => match &args.port {
            Some(p) => Ok(TransportTarget::Serial { port: p.clone(), baud: args.baud }),
            None => Err("--port is required for serial transport".to_owned()),
        },
    }
}

/// Display name of tuple element `i` whose recorded name is `raw`: `arg{i}`
/// when the name is empty or a plain number, else the name itself.
pub open spec fn elem_label(i: nat, raw: Seq<char>) -> Seq<char> {
    if raw.len() == 0 || parsed_u64(raw, 10) is Some {
        "arg"@ + decimal_text(i)
    } else {
        raw
    }
}

/// Display name of tuple element `i` whose recorded name is `raw`: `arg{i}`
/// when the name is empty or a plain number, else the name itself.
pub fn elem_name(i: usize, raw: &str) -> (r: String)
    ensures
        r@ == elem_label(i as nat, raw@),
        (raw@.len() == 0 || parsed_u64(raw@, 10) is Some) ==> r@ == "arg"@ + decimal_text(
            i as nat,
        ),
        !(raw@.len() == 0 || parsed_u64(raw@, 10) is Some) ==> r@ == raw@,
{
    let numeric = if raw.unicode_len() == 0 {
        true
    } else {
        u64_from_str_radix(raw, 10).is_ok()
    };
    if numeric {
        let mut s = "arg".to_owned();
        push_decimal(&mut s, i as u64);
        s
    } else {
        raw.to_owned()
    }
}

} // verus!
