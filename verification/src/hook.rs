//! The hook client's own decisions: the command line it accepts, and the body
//! it posts to the server around the event the harness handed it.
//!
//! The client holds no state; reading stdin and the transcript, and the POST
//! itself, are the program's, not the library's.
use vstd::prelude::*;

use crate::text::{decimal, decimal_chars};

verus! {

/// Usage line printed when the arguments do not parse.
pub const USAGE: &'static str = "usage: forgetmenot-hook --server URL --machine NAME";

/// Exit code for arguments that do not parse, distinct from the exit code for
/// a failed request so a misconfigured hook can be told apart from a server
/// that is down.
pub const EXIT_USAGE: i32 = 2;

/// The command line the client needs.
#[derive(Debug, Clone, PartialEq, Eq)]
pub struct Arguments {
    /// Base URL of the forgetmenot server, without the `/hook` path.
    pub server: String,
    /// Name this machine is known by in the store.
    pub machine: String,
}

/// What the arguments from position `i` on give, with `server` and `machine`
/// as read so far: the two values, or the sentence naming the problem.
pub open spec fn scan_arguments(
    args: Seq<Seq<char>>,
    i: int,
    server: Option<Seq<char>>,
    machine: Option<Seq<char>>,
) -> Result<(Seq<char>, Seq<char>), Seq<char>>
    decreases args.len() - i,
{
    if i < 0 || i >= args.len() {
        match (server, machine) {
            (Some(s), Some(m)) => Ok((s, m)),
            (None, _) => Err("--server is required"@),
            (_, None) => Err("--machine is required"@),
        }
    } else if args[i] == "--server"@ || args[i] == "--machine"@ {
        if i + 1 < args.len() {
            if args[i] == "--server"@ {
                scan_arguments(args, i + 2, Some(args[i + 1]), machine)
            } else {
                scan_arguments(args, i + 2, server, Some(args[i + 1]))
            }
        } else {
            Err(args[i] + " needs a value"@)
        }
    } else {
        Err("unknown argument "@ + args[i])
    }
}

/// Flag and value pairs written out one after the other.
pub open spec fn flattened(pairs: Seq<(Seq<char>, Seq<char>)>) -> Seq<Seq<char>>
    decreases pairs.len(),
{
    if pairs.len() == 0 {
        Seq::empty()
    } else {
        flattened(pairs.drop_last()) + seq![pairs.last().0, pairs.last().1]
    }
}

/// The value the last pair with `flag` gives, if any pair has it.
pub open spec fn last_value(pairs: Seq<(Seq<char>, Seq<char>)>, flag: Seq<char>) -> Option<Seq<char>>
    decreases pairs.len(),
{
    if pairs.len() == 0 {
        None
    } else if pairs.last().0 == flag {
        Some(pairs.last().1)
    } else {
        last_value(pairs.drop_last(), flag)
    }
}

/// Each pair is in its place in the flattened list.
proof fn lemma_flattened_at(pairs: Seq<(Seq<char>, Seq<char>)>)
    ensures
        flattened(pairs).len() == 2 * pairs.len(),
        forall|k: int| 0 <= k < pairs.len() ==> flattened(pairs)[2 * k] == (#[trigger] pairs[k]).0
            && flattened(pairs)[2 * k + 1] == pairs[k].1,
    decreases pairs.len(),
{
    if pairs.len() > 0 {
        lemma_flattened_at(pairs.drop_last());
        assert forall|k: int| 0 <= k < pairs.len() implies flattened(pairs)[2 * k] == (#[trigger] pairs[k]).0
            && flattened(pairs)[2 * k + 1] == pairs[k].1 by {
            if k < pairs.len() - 1 {
                assert(pairs.drop_last()[k] == pairs[k]);
            }
        }
    }
}

/// Scanning the first `k` pairs leaves the last value of each flag among them.
proof fn lemma_scan_pairs(pairs: Seq<(Seq<char>, Seq<char>)>, k: int)
    requires
        0 <= k <= pairs.len(),
        forall|j: int| 0 <= j < pairs.len() ==> (#[trigger] pairs[j]).0 == "--server"@ || pairs[j].0 == "--machine"@,
    ensures
        scan_arguments(flattened(pairs), 0, None, None) == scan_arguments(
            flattened(pairs),
            2 * k,
            last_value(pairs.take(k), "--server"@),
            last_value(pairs.take(k), "--machine"@),
        ),
    decreases k,
{
    lemma_flattened_at(pairs);
    if k > 0 {
        lemma_scan_pairs(pairs, k - 1);
        let p = pairs[k - 1];
        assert(pairs.take(k).drop_last() =~= pairs.take(k - 1));
        assert(pairs.take(k).last() == p);
        assert(flattened(pairs)[2 * (k - 1)] == p.0);
        assert(flattened(pairs)[2 * (k - 1) + 1] == p.1);
        reveal_strlit("--server");
        reveal_strlit("--machine");
        assert("--server"@ != "--machine"@) by {
            assert("--server"@[2] != "--machine"@[2]);
        }
    } else {
        assert(pairs.take(0).len() == 0);
    }
}

/// The arguments read as flag and value pairs: every flag is `--server` or
/// `--machine`, and then the arguments are taken exactly when both flags are
/// given, each with the value of its last pair; without one, the refusal
/// names the first flag missing.
pub proof fn lemma_arguments_are_the_last_pair_of_each_flag(pairs: Seq<(Seq<char>, Seq<char>)>)
    requires
        forall|j: int| 0 <= j < pairs.len() ==> (#[trigger] pairs[j]).0 == "--server"@ || pairs[j].0 == "--machine"@,
    ensures
        scan_arguments(flattened(pairs), 0, None, None) == (match (
            last_value(pairs, "--server"@),
            last_value(pairs, "--machine"@),
        ) {
            (Some(s), Some(m)) => Ok((s, m)),
            (None, _) => Err("--server is required"@),
            (_, None) => Err("--machine is required"@),
        }),
{
    lemma_scan_pairs(pairs, pairs.len() as int);
    lemma_flattened_at(pairs);
    assert(pairs.take(pairs.len() as int) =~= pairs);
}

/// A scan that succeeds from position `i` reads flag and value pairs to the
/// end: what is left has an even length and a flag at every even distance.
proof fn lemma_accepted_scan_reads_pairs(
    args: Seq<Seq<char>>,
    i: int,
    server: Option<Seq<char>>,
    machine: Option<Seq<char>>,
)
    requires
        0 <= i <= args.len(),
        scan_arguments(args, i, server, machine) is Ok,
    ensures
        (args.len() - i) % 2 == 0,
        forall|j: int|
            i <= j < args.len() && (j - i) % 2 == 0 ==> (#[trigger] args[j]) == "--server"@ || args[j] == "--machine"@,
    decreases args.len() - i,
{
    if i < args.len() {
        let next_server = if args[i] == "--server"@ { Some(args[i + 1]) } else { server };
        let next_machine = if args[i] == "--server"@ { machine } else { Some(args[i + 1]) };
        lemma_accepted_scan_reads_pairs(args, i + 2, next_server, next_machine);
    }
}

/// Arguments that are taken are flag and value pairs, each flag `--server`
/// or `--machine`, with both flags among them; and what is taken is the value
/// of the last pair of each flag.
pub proof fn lemma_accepted_arguments_are_flag_value_pairs(args: Seq<String>)
    requires
        arguments_of(args) is Ok,
    ensures
        exists|pairs: Seq<(Seq<char>, Seq<char>)>| {
            &&& #[trigger] flattened(pairs) == arg_views(args)
            &&& forall|j: int| 0 <= j < pairs.len() ==> (#[trigger] pairs[j]).0 == "--server"@ || pairs[j].0 == "--machine"@
            &&& last_value(pairs, "--server"@) is Some
            &&& last_value(pairs, "--machine"@) is Some
            &&& arguments_of(args) == Ok::<(Seq<char>, Seq<char>), Seq<char>>(
                (last_value(pairs, "--server"@)->0, last_value(pairs, "--machine"@)->0),
            )
        },
{
    let a = arg_views(args);
    lemma_accepted_scan_reads_pairs(a, 0, None, None);
    let n = a.len() / 2;
    let pairs = Seq::new(n, |k: int| (a[2 * k], a[2 * k + 1]));
    assert forall|j: int| 0 <= j < pairs.len() implies (#[trigger] pairs[j]).0 == "--server"@ || pairs[j].0 == "--machine"@ by {
        assert((2 * j - 0) % 2 == 0);
        assert(a[2 * j] == pairs[j].0);
    }
    lemma_flattened_at(pairs);
    assert forall|j: int| 0 <= j < a.len() implies flattened(pairs)[j] == a[j] by {
        let k = j / 2;
        assert(pairs[k] == (a[2 * k], a[2 * k + 1]));
        if j % 2 == 0 {
            assert(j == 2 * k);
        } else {
            assert(j == 2 * k + 1);
        }
    }
    assert(flattened(pairs) =~= a);
    lemma_arguments_are_the_last_pair_of_each_flag(pairs);
}

/// The order of the two flags does not matter.
pub proof fn lemma_flag_order_does_not_matter(server: Seq<char>, machine: Seq<char>)
    ensures
        scan_arguments(seq!["--server"@, server, "--machine"@, machine], 0, None, None) == Ok::<
            (Seq<char>, Seq<char>),
            Seq<char>,
        >((server, machine)),
        scan_arguments(seq!["--machine"@, machine, "--server"@, server], 0, None, None) == Ok::<
            (Seq<char>, Seq<char>),
            Seq<char>,
        >((server, machine)),
{
    reveal_strlit("--server");
    reveal_strlit("--machine");
    assert("--server"@ != "--machine"@) by {
        assert("--server"@[2] != "--machine"@[2]);
    }
    let a = seq![("--server"@, server), ("--machine"@, machine)];
    let b = seq![("--machine"@, machine), ("--server"@, server)];
    lemma_arguments_are_the_last_pair_of_each_flag(a);
    lemma_arguments_are_the_last_pair_of_each_flag(b);
    lemma_flattened_at(a);
    lemma_flattened_at(b);
    assert(a[0] == ("--server"@, server) && a[1] == ("--machine"@, machine));
    assert(b[0] == ("--machine"@, machine) && b[1] == ("--server"@, server));
    assert(flattened(a)[2 * 0int] == a[0].0 && flattened(a)[2 * 1int] == a[1].0);
    assert(flattened(b)[2 * 0int] == b[0].0 && flattened(b)[2 * 1int] == b[1].0);
    assert(flattened(a) =~= seq!["--server"@, server, "--machine"@, machine]);
    assert(flattened(b) =~= seq!["--machine"@, machine, "--server"@, server]);
    assert(a.drop_last() =~= seq![("--server"@, server)]);
    assert(b.drop_last() =~= seq![("--machine"@, machine)]);
    assert(a.drop_last().drop_last() =~= Seq::<(Seq<char>, Seq<char>)>::empty());
    assert(b.drop_last().drop_last() =~= Seq::<(Seq<char>, Seq<char>)>::empty());
    assert(a.last() == a[1] && a.drop_last().last() == a[0]);
    assert(b.last() == b[1] && b.drop_last().last() == b[0]);
    assert(last_value(a.drop_last(), "--server"@) == Some(server));
    assert(last_value(a, "--server"@) == Some(server));
    assert(last_value(a, "--machine"@) == Some(machine));
    assert(last_value(b.drop_last(), "--machine"@) == Some(machine));
    assert(last_value(b, "--machine"@) == Some(machine));
    assert(last_value(b, "--server"@) == Some(server));
}

/// The views of a list of strings.
pub open spec fn arg_views(args: Seq<String>) -> Seq<Seq<char>> {
    args.map_values(|a: String| a@)
}

/// `--server URL --machine NAME`, in either order; a flag given twice keeps
/// its last value.
pub open spec fn arguments_of(args: Seq<String>) -> Result<(Seq<char>, Seq<char>), Seq<char>> {
    scan_arguments(arg_views(args), 0, None, None)
}

/// The text `prefix` followed by `rest`, as a new string.
fn joined(prefix: &str, rest: &str) -> (out: String)
    ensures
        out@ == prefix@ + rest@,
{
    let mut chars: Vec<char> = Vec::new();
    crate::text::push_str(&mut chars, prefix);
    crate::text::push_str(&mut chars, rest);
    crate::text::string_of(&chars)
}

/// Parse `--server URL --machine NAME` in either order. The error names the
/// problem for the stderr line; it is not meant to be matched on.
pub fn parse_arguments(arguments: &[String]) -> (parsed: Result<Arguments, String>)
    ensures
        match parsed {
            Ok(a) => arguments_of(arguments@) == Ok::<(Seq<char>, Seq<char>), Seq<char>>((a.server@, a.machine@)),
            Err(problem) => arguments_of(arguments@) == Err::<(Seq<char>, Seq<char>), Seq<char>>(problem@),
        },
{
    let ghost args = arg_views(arguments@);
    let mut server: Option<String> = None;
    let mut machine: Option<String> = None;
    let mut i: usize = 0;
    let server_flag = "--server".to_owned();
    let machine_flag = "--machine".to_owned();
    while i < arguments.len()
        invariant
            i <= arguments@.len(),
            args == arg_views(arguments@),
            server_flag@ == "--server"@,
            machine_flag@ == "--machine"@,
            arguments_of(arguments@) == scan_arguments(
                args,
                i as int,
                crate::events::opt_view(server),
                crate::events::opt_view(machine),
            ),
        decreases arguments.len() - i,
    {
        let argument = &arguments[i];
        assert(args[i as int] == argument@);
        let is_server = *argument == server_flag;
        let is_machine = *argument == machine_flag;
        if !is_server && !is_machine {
            return Err(joined("unknown argument ", argument.as_str()));
        }
        if i + 1 >= arguments.len() {
            return Err(joined(argument.as_str(), " needs a value"));
        }
        assert(args[i + 1] == arguments@[i + 1]@);
        if is_server {
            server = Some(arguments[i + 1].clone());
        } else {
            machine = Some(arguments[i + 1].clone());
        }
        i = i + 2;
    }
    match (server, machine) {
        (Some(server), Some(machine)) => Ok(Arguments { server, machine }),
        (None, _) => Err("--server is required".to_owned()),
        (_, None) => Err("--machine is required".to_owned()),
    }
}

/// The bytes of a text written one byte per character, which is what its
/// UTF-8 encoding is when every character is ASCII.
pub open spec fn ascii_bytes(s: Seq<char>) -> Seq<u8> {
    s.map_values(|c: char| c as u8)
}

/// The bytes `serde_json` writes for a string: its JSON literal.
pub uninterp spec fn json_quoted(text: Seq<char>) -> Seq<u8>;

/// Writes `text` as a JSON string literal.
///
/// Trusted: `serde_json::to_writer` on a `str`, which writes the string's JSON
/// literal, quotes and escapes included, to the writer. Writing into a `Vec`
/// cannot fail, so the call's `Result` is always `Ok`; what the literal is,
/// byte for byte, is left to `serde_json` and named here, not spelled out.
#[verifier::external_body]
fn write_json_string(body: &mut Vec<u8>, text: &str)
    ensures
        final(body)@ == old(body)@ + json_quoted(text@),
{
    let _ = serde_json::to_writer(body, text);
}

/// Appends `text` one byte per character.
pub(crate) fn push_ascii(body: &mut Vec<u8>, text: &[char])
    ensures
        final(body)@ == old(body)@ + ascii_bytes(text@),
{
    let mut i: usize = 0;
    while i < text.len()
        invariant
            i <= text@.len(),
            body@ == old(body)@ + ascii_bytes(text@.take(i as int)),
        decreases text.len() - i,
    {
        let c = text[i];
        body.push(c as u8);
        assert(ascii_bytes(text@.take(i + 1)) =~= ascii_bytes(text@.take(i as int)).push(c as u8));
        i += 1;
    }
    assert(text@.take(text@.len() as int) =~= text@);
}

/// Appends a literal piece of the body.
pub(crate) fn push_literal(body: &mut Vec<u8>, text: &str)
    ensures
        final(body)@ == old(body)@ + ascii_bytes(text@),
{
    let chars = crate::text::chars_of(text);
    push_ascii(body, &chars);
}

/// A JSON string, or `null` when there is nothing to write.
pub open spec fn optional_json(value: Option<Seq<char>>) -> Seq<u8> {
    match value {
        Some(t) => json_quoted(t),
        None => ascii_bytes("null"@),
    }
}

/// A count in decimal, or `null` when there is none.
pub open spec fn optional_count(value: Option<u64>) -> Seq<u8> {
    match value {
        Some(n) => ascii_bytes(decimal(n as nat)),
        None => ascii_bytes("null"@),
    }
}

/// The `POST /hook` body: the client's own fields, then the event as it
/// arrived.
pub open spec fn hook_request(
    machine: Seq<char>,
    context_tokens: Option<u64>,
    session_title: Option<Seq<char>>,
    first_prompt: Option<Seq<char>>,
    task: Option<Seq<char>>,
    hook_json: Seq<u8>,
) -> Seq<u8> {
    ascii_bytes("{\"machine\":"@) + json_quoted(machine) + ascii_bytes(",\"context_tokens\":"@)
        + optional_count(context_tokens) + ascii_bytes(",\"session_title\":"@) + optional_json(
        session_title,
    ) + ascii_bytes(",\"first_prompt\":"@) + optional_json(first_prompt) + ascii_bytes(
        ",\"task\":"@,
    ) + optional_json(task) + ascii_bytes(",\"hook\":"@) + hook_json + ascii_bytes("}"@)
}

/// Write a JSON string, or `null` when there is nothing to write. The value
/// comes from a transcript the client did not write, so the quoting and
/// escaping are left to `serde_json`.
fn write_optional_string(body: &mut Vec<u8>, value: Option<&str>)
    ensures
        final(body)@ == old(body)@ + optional_json(crate::events::opt_str(value)),
{
    match value {
        Some(text) => write_json_string(body, text),
        None => push_literal(body, "null"),
    }
}

/// Build the `POST /hook` body, splicing the hook event in as received: the
/// event is not re-encoded, so the server sees the bytes the harness wrote,
/// in their order, including fields no version of this client knows about.
pub fn request_body(
    machine: &str,
    context_tokens: Option<u64>,
    session_title: Option<&str>,
    first_prompt: Option<&str>,
    task: Option<&str>,
    hook_json: &[u8],
) -> (body: Vec<u8>)
    ensures
        body@ == hook_request(
            machine@,
            context_tokens,
            crate::events::opt_str(session_title),
            crate::events::opt_str(first_prompt),
            crate::events::opt_str(task),
            hook_json@,
        ),
{
    let mut body: Vec<u8> = Vec::new();
    push_literal(&mut body, "{\"machine\":");
    write_json_string(&mut body, machine);
    push_literal(&mut body, ",\"context_tokens\":");
    match context_tokens {
        Some(tokens) => {
            let digits = decimal_chars(tokens);
            push_ascii(&mut body, &digits);
        },
        None => push_literal(&mut body, "null"),
    }
    push_literal(&mut body, ",\"session_title\":");
    write_optional_string(&mut body, session_title);
    push_literal(&mut body, ",\"first_prompt\":");
    write_optional_string(&mut body, first_prompt);
    push_literal(&mut body, ",\"task\":");
    write_optional_string(&mut body, task);
    push_literal(&mut body, ",\"hook\":");
    let mut i: usize = 0;
    let ghost start = body@;
    while i < hook_json.len()
        invariant
            i <= hook_json@.len(),
            body@ == start + hook_json@.take(i as int),
        decreases hook_json.len() - i,
    {
        body.push(hook_json[i]);
        assert(hook_json@.take(i + 1) =~= hook_json@.take(i as int).push(hook_json@[i as int]));
        i += 1;
    }
    assert(hook_json@.take(hook_json@.len() as int) =~= hook_json@);
    push_literal(&mut body, "}");
    body
}

/// The bytes `u8::is_ascii_whitespace` accepts: space, tab, line feed, form
/// feed and carriage return.
pub open spec fn is_ascii_white(b: u8) -> bool {
    b == 0x20 || b == 0x09 || b == 0x0A || b == 0x0C || b == 0x0D
}

/// How many whitespace bytes `s` starts with.
pub open spec fn leading_white(s: Seq<u8>) -> nat
    decreases s.len(),
{
    if s.len() > 0 && is_ascii_white(s[0]) {
        1 + leading_white(s.skip(1))
    } else {
        0
    }
}

/// How many whitespace bytes `s` ends with.
pub open spec fn trailing_white(s: Seq<u8>) -> nat
    decreases s.len(),
{
    if s.len() > 0 && is_ascii_white(s.last()) {
        1 + trailing_white(s.drop_last())
    } else {
        0
    }
}

/// `s` without the ASCII whitespace at either end.
pub open spec fn trimmed(s: Seq<u8>) -> Seq<u8> {
    if leading_white(s) >= s.len() {
        Seq::empty()
    } else {
        s.subrange(leading_white(s) as int, s.len() - trailing_white(s))
    }
}

proof fn lemma_leading_white_bound(s: Seq<u8>)
    ensures
        leading_white(s) <= s.len(),
        leading_white(s) < s.len() ==> !is_ascii_white(s[leading_white(s) as int]),
        forall|k: int| 0 <= k < leading_white(s) ==> is_ascii_white(#[trigger] s[k]),
    decreases s.len(),
{
    if s.len() > 0 && is_ascii_white(s[0]) {
        lemma_leading_white_bound(s.skip(1));
        assert forall|k: int| 0 <= k < leading_white(s) implies is_ascii_white(#[trigger] s[k]) by {
            if k > 0 {
                assert(s[k] == s.skip(1)[k - 1]);
            }
        }
    }
}

proof fn lemma_trailing_white_bound(s: Seq<u8>)
    ensures
        trailing_white(s) <= s.len(),
        trailing_white(s) < s.len() ==> !is_ascii_white(s[s.len() - 1 - trailing_white(s)]),
        forall|k: int| s.len() - trailing_white(s) <= k < s.len() ==> is_ascii_white(#[trigger] s[k]),
    decreases s.len(),
{
    if s.len() > 0 && is_ascii_white(s.last()) {
        lemma_trailing_white_bound(s.drop_last());
        assert forall|k: int| s.len() - trailing_white(s) <= k < s.len() implies is_ascii_white(#[trigger] s[k]) by {
            if k < s.len() - 1 {
                assert(s[k] == s.drop_last()[k]);
            }
        }
    }
}

/// Whether `b` is ASCII whitespace.
fn ascii_white(b: u8) -> (white: bool)
    ensures
        white == is_ascii_white(b),
{
    b == 0x20 || b == 0x09 || b == 0x0A || b == 0x0C || b == 0x0D
}

/// The harness ends the payload with a newline; JSON does not care, but the
/// spliced body is neater without it.
pub fn trim_ascii_whitespace(bytes: &[u8]) -> (out: &[u8])
    ensures
        out@ == trimmed(bytes@),
{
    let mut start: usize = 0;
    proof {
        lemma_leading_white_bound(bytes@);
        lemma_trailing_white_bound(bytes@);
    }
    while start < bytes.len() && ascii_white(bytes[start])
        invariant
            start <= leading_white(bytes@),
            leading_white(bytes@) <= bytes@.len(),
            leading_white(bytes@) < bytes@.len() ==> !is_ascii_white(bytes@[leading_white(bytes@) as int]),
        decreases bytes.len() - start,
    {
        start += 1;
    }
    if start >= bytes.len() {
        return vstd::slice::slice_subrange(bytes, bytes.len(), bytes.len());
    }
    let mut end: usize = bytes.len();
    while end > start && ascii_white(bytes[end - 1])
        invariant
            start < bytes@.len(),
            start == leading_white(bytes@),
            start < end <= bytes@.len(),
            bytes@.len() - end <= trailing_white(bytes@),
            trailing_white(bytes@) <= bytes@.len(),
            trailing_white(bytes@) < bytes@.len() ==> !is_ascii_white(bytes@[bytes@.len() - 1 - trailing_white(bytes@)]),
            !is_ascii_white(bytes@[start as int]),
        decreases end,
    {
        end -= 1;
    }
    vstd::slice::slice_subrange(bytes, start, end)
}

} // verus!
