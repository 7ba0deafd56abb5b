//! What the broker is told when it starts.

use vstd::prelude::*;
use crate::message::string_opt;
use crate::policy;
use crate::text;
use crate::text::{chars_of, spells, str_eq};

verus! {

/// How much is logged.
#[derive(Debug, Clone, Copy, PartialEq, Eq, Structural)]
pub enum LogLevel {
    /// Errors.
    Error,
    /// Warnings too.
    Warn,
    /// What happens too.
    Info,
    /// Details too.
    Debug,
    /// Everything.
    Trace,
}

/// A text in lower case.
pub open spec fn lowered(s: Seq<char>) -> Seq<char> {
    Seq::new(s.len(), |i: int| text::lower(s[i]))
}

/// How much is logged where a setting says so; what happens, where it says nothing known.
pub open spec fn level_of(value: Option<Seq<char>>) -> LogLevel {
    match value {
        None => LogLevel::Info,
        Some(t) => if lowered(t) == "error"@ {
            LogLevel::Error
        } else if lowered(t) == "warn"@ {
            LogLevel::Warn
        } else if lowered(t) == "debug"@ {
            LogLevel::Debug
        } else if lowered(t) == "trace"@ {
            LogLevel::Trace
        } else {
            LogLevel::Info
        },
    }
}

/// How much is logged where a setting says so.
pub fn log_level(value: Option<&str>) -> (r: LogLevel)
    ensures
        r == level_of(policy::setting_opt(value)),
{
    let text = match value {
        None => {
            return LogLevel::Info;
        },
        Some(text) => text,
    };
    let mut list = chars_of(text);
    let ghost all = list@;
    let mut i: usize = 0;
    while i < list.len()
        invariant
            i <= list@.len(),
            list@.len() == all.len(),
            forall|k: int| 0 <= k < i ==> list@[k] == text::lower(all[k]),
            forall|k: int| i <= k < all.len() ==> list@[k] == all[k],
        decreases list@.len() - i,
    {
        let c = text::lower_char(list[i]);
        list.set(i, c);
        i = i + 1;
    }
    assert(list@ =~= lowered(all));
    if spells(&list, "error") {
        LogLevel::Error
    } else if spells(&list, "warn") {
        LogLevel::Warn
    } else if spells(&list, "debug") {
        LogLevel::Debug
    } else if spells(&list, "trace") {
        LogLevel::Trace
    } else {
        LogLevel::Info
    }
}

/// The files for TLS that the command line names.
#[derive(Debug)]
pub struct CommandLine {
    /// The file with the certificate.
    pub cert: Option<String>,
    /// The file with the private key.
    pub key: Option<String>,
    /// The arguments that are unknown, in their order.
    pub unknown: Vec<String>,
}

/// What a command line says, as the contracts see it.
#[verifier::ext_equal]
pub struct CommandLineView {
    /// The file with the certificate.
    pub cert: Option<Seq<char>>,
    /// The file with the private key.
    pub key: Option<Seq<char>>,
    /// The arguments that are unknown, in their order.
    pub unknown: Seq<Seq<char>>,
}

/// A list of texts, as the contracts see it.
pub open spec fn list_view(list: Seq<String>) -> Seq<Seq<char>> {
    list.map_values(|s: String| s@)
}

impl View for CommandLine {
    type V = CommandLineView;

    open spec fn view(&self) -> CommandLineView {
        CommandLineView {
            cert: string_opt(self.cert),
            key: string_opt(self.key),
            unknown: list_view(self.unknown@),
        }
    }
}

/// What the arguments say from a place on; on failure the flag that lacks its value.
pub open spec fn told(args: Seq<Seq<char>>, i: nat, so_far: CommandLineView) -> Result<
    CommandLineView,
    Seq<char>,
>
    decreases args.len() - i,
{
    if i >= args.len() {
        Ok(so_far)
    } else {
        let arg = args[i as int];
        if arg == "--cert"@ || arg == "--key"@ {
            if i + 1 >= args.len() {
                Err(arg)
            } else {
                let value = Some(args[(i + 1) as int]);
                told(
                    args,
                    i + 2,
                    if arg == "--cert"@ {
                        CommandLineView { cert: value, ..so_far }
                    } else {
                        CommandLineView { key: value, ..so_far }
                    },
                )
            }
        } else {
            told(
                args,
                i + 1,
                CommandLineView { unknown: so_far.unknown.push(arg), ..so_far },
            )
        }
    }
}

/// Reads the command line, without the name of the program; on failure, gives the flag that lacks
/// its value.
pub fn parse_command_line(args: &Vec<String>) -> (r: Result<CommandLine, String>)
    ensures
        match told(
            list_view(args@),
            0,
            (CommandLineView { cert: None, key: None, unknown: Seq::empty() }),
        ) {
            Ok(view) => r matches Ok(line) && line@ == view,
            Err(flag) => r matches Err(f) && f@ == flag,
        },
{
    let mut line = CommandLine { cert: None, key: None, unknown: Vec::new() };
    let mut i: usize = 0;
    let total: usize = args.len();
    let ghost all = list_view(args@);
    let ghost start = CommandLineView { cert: None, key: None, unknown: Seq::empty() };
    assert(line@ =~= start);
    while i < total
        invariant
            total == args@.len(),
            i <= total,
            all == list_view(args@),
            start == (CommandLineView { cert: None, key: None, unknown: Seq::empty() }),
            told(all, 0, start) == told(all, i as nat, line@),
        decreases total - i,
    {
        let arg = args[i].as_str();
        assert(all[i as int] == arg@);
        let cert = str_eq(arg, "--cert");
        if cert || str_eq(arg, "--key") {
            if total - i < 2 {
                return Err(arg.to_owned());
            }
            let value = args[i + 1].clone();
            assert(all[i + 1] == value@);
            if cert {
                line.cert = Some(value);
            } else {
                line.key = Some(value);
            }
            i = i + 2;
        } else {
            let ghost was = line@.unknown;
            line.unknown.push(arg.to_owned());
            assert(line@.unknown =~= was.push(arg@));
            i = i + 1;
        }
    }
    Ok(line)
}

/// Whether the key exchange of a TLS connection, by its number, withstands quantum computers.
pub fn key_exchange_is_pqc(group: u16) -> (r: bool)
    ensures
        r == (group == 0x11EC || group == 0x0201 || group == 0x0202 || group == 0x11EB),
{
    group == 0x11EC || group == 0x0201 || group == 0x0202 || group == 0x11EB
}

/// How much is logged goes by a word in small or capital letters: `error`, `warn`, `debug` or
/// `trace`; what happens is logged where the setting is missing or is another word.
pub proof fn law_words_for_the_log(t: Seq<char>)
    ensures
        level_of(None) == LogLevel::Info,
        lowered(t) == seq!['e', 'r', 'r', 'o', 'r'] <==> level_of(Some(t)) == LogLevel::Error,
        lowered(t) == seq!['w', 'a', 'r', 'n'] <==> level_of(Some(t)) == LogLevel::Warn,
        lowered(t) == seq!['d', 'e', 'b', 'u', 'g'] <==> level_of(Some(t)) == LogLevel::Debug,
        lowered(t) == seq!['t', 'r', 'a', 'c', 'e'] <==> level_of(Some(t)) == LogLevel::Trace,
        forall|i: int|
            0 <= i < t.len() ==> #[trigger] lowered(t)[i] == (if 0x41 <= t[i] as u32 <= 0x5A {
                (t[i] as u32 + 32) as char
            } else {
                t[i]
            }),
{
    reveal_strlit("error");
    reveal_strlit("warn");
    reveal_strlit("debug");
    reveal_strlit("trace");
    assert("error"@ =~= seq!['e', 'r', 'r', 'o', 'r']);
    assert("warn"@ =~= seq!['w', 'a', 'r', 'n']);
    assert("debug"@ =~= seq!['d', 'e', 'b', 'u', 'g']);
    assert("trace"@ =~= seq!['t', 'r', 'a', 'c', 'e']);
    assert("error"@[0] != "debug"@[0]);
    assert("error"@[0] != "trace"@[0]);
    assert("debug"@[0] != "trace"@[0]);
    assert("warn"@.len() == 4);
}

/// A command line is read from its front: `--cert` and `--key` each take what follows them as the
/// name of a file, the last one counts, and one at the end that lacks its value is what is wrong
/// with the line; everything else is noted as unknown.
pub proof fn law_arguments_are_read_in_order(
    args: Seq<Seq<char>>,
    i: nat,
    so_far: CommandLineView,
)
    ensures
        i >= args.len() ==> told(args, i, so_far) == Ok::<CommandLineView, Seq<char>>(so_far),
        i + 1 < args.len() && args[i as int] == seq!['-', '-', 'c', 'e', 'r', 't'] ==> told(
            args,
            i,
            so_far,
        ) == told(args, i + 2, CommandLineView { cert: Some(args[(i + 1) as int]), ..so_far }),
        i + 1 < args.len() && args[i as int] == seq!['-', '-', 'k', 'e', 'y'] ==> told(
            args,
            i,
            so_far,
        ) == told(args, i + 2, CommandLineView { key: Some(args[(i + 1) as int]), ..so_far }),
        i + 1 == args.len() && (args[i as int] == seq!['-', '-', 'c', 'e', 'r', 't']
            || args[i as int] == seq!['-', '-', 'k', 'e', 'y']) ==> told(args, i, so_far) == Err::<
            CommandLineView,
            Seq<char>,
        >(args[i as int]),
        i < args.len() && args[i as int] != seq!['-', '-', 'c', 'e', 'r', 't'] && args[i as int]
            != seq!['-', '-', 'k', 'e', 'y'] ==> told(args, i, so_far) == told(
            args,
            i + 1,
            CommandLineView { unknown: so_far.unknown.push(args[i as int]), ..so_far },
        ),
{
    reveal_strlit("--cert");
    reveal_strlit("--key");
    assert("--cert"@ =~= seq!['-', '-', 'c', 'e', 'r', 't']);
    assert("--key"@ =~= seq!['-', '-', 'k', 'e', 'y']);
    assert("--cert"@.len() != "--key"@.len());
}

} // verus!
