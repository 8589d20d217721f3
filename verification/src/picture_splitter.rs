//! Splits a picture resource into opcodes with their argument bytes.
//!
//! Opcodes are the bytes 0xF0 to 0xFF. Argument bytes may themselves be 0xF0
//! or above, so the end of an argument list cannot in general be found by
//! looking for the next opcode byte: every opcode has its own length rule.

use vstd::prelude::*;
use crate::error::DecodeError;

verus! {

/// The sixteen picture opcodes, in the order of their bytes 0xF0 to 0xFF.
#[derive(PartialEq, Eq, Debug, Copy, Clone, Structural)]
pub enum Action {
    SetVisualColour,
    DisableVisual,
    SetPriorityColour,
    DisablePriority,
    ShortRelativePatterns,
    MediumRelativeLines,
    LongLines,
    ShortRelativeLines,
    FloodFill,
    SetPattern,
    LongPatterns,
    SetControlColour,
    DisableControl,
    MediumRelativePatterns,
    CommandExtensions,
    End,
}

/// One opcode with the argument bytes that belong to it.
#[derive(PartialEq, Debug)]
pub struct ActionArguments {
    pub action: Action,
    pub arguments: Vec<u8>,
}

/// The mathematical value of an [`ActionArguments`].
pub struct Token {
    pub action: Action,
    pub arguments: Seq<u8>,
}

impl View for ActionArguments {
    type V = Token;

    open spec fn view(&self) -> Token {
        Token { action: self.action, arguments: self.arguments@ }
    }
}

/// The values of a run of tokens.
pub open spec fn tokens_of(actions: Seq<ActionArguments>) -> Seq<Token> {
    Seq::new(actions.len(), |i: int| actions[i]@)
}

/// The opcode that a byte stands for, if it is one.
pub open spec fn action_of_byte(b: u8) -> Option<Action> {
    if b == 0xF0 {
        Some(Action::SetVisualColour)
    } else if b == 0xF1 {
        Some(Action::DisableVisual)
    } else if b == 0xF2 {
        Some(Action::SetPriorityColour)
    } else if b == 0xF3 {
        Some(Action::DisablePriority)
    } else if b == 0xF4 {
        Some(Action::ShortRelativePatterns)
    } else if b == 0xF5 {
        Some(Action::MediumRelativeLines)
    } else if b == 0xF6 {
        Some(Action::LongLines)
    } else if b == 0xF7 {
        Some(Action::ShortRelativeLines)
    } else if b == 0xF8 {
        Some(Action::FloodFill)
    } else if b == 0xF9 {
        Some(Action::SetPattern)
    } else if b == 0xFA {
        Some(Action::LongPatterns)
    } else if b == 0xFB {
        Some(Action::SetControlColour)
    } else if b == 0xFC {
        Some(Action::DisableControl)
    } else if b == 0xFD {
        Some(Action::MediumRelativePatterns)
    } else if b == 0xFE {
        Some(Action::CommandExtensions)
    } else if b == 0xFF {
        Some(Action::End)
    } else {
        None
    }
}

/// Where a list of chunks ends: the first of the positions `at`,
/// `at + chunk`, `at + 2 * chunk`, ... that holds a byte of 0xF0 or above.
/// That byte is the next opcode and no argument. `None` if the bytes run out
/// first.
pub open spec fn scan_end(args: Seq<u8>, at: nat, chunk: nat) -> Option<nat>
    decreases
            if at < args.len() {
                args.len() - at
            } else {
                0
            },
{
    if at >= args.len() || chunk == 0 {
        None
    } else if args[at as int] >= 0xF0 {
        Some(at)
    } else {
        scan_end(args, at + chunk, chunk)
    }
}

/// The length of a scanned argument list, or the error for a list that the
/// input cuts short.
pub open spec fn scanned_length(args: Seq<u8>, start: nat, chunk: nat) -> Result<
    nat,
    DecodeError,
> {
    match scan_end(args, start, chunk) {
        Some(end) => Ok(end),
        None => Err(DecodeError::TruncatedInput),
    }
}

/// The argument length of an extension command, by its sub-command byte.
pub open spec fn extension_length(args: Seq<u8>) -> Result<nat, DecodeError> {
    if args.len() == 0 {
        Err(DecodeError::TruncatedInput)
    } else if args[0] == 0 {
        // Palette entries: index and value pairs up to the next opcode.
        scanned_length(args, 1, 2)
    } else if args[0] == 1 || args[0] == 2 {
        // A whole palette: command, palette number, forty entries.
        Ok(42)
    } else if args[0] == 3 || args[0] == 5 {
        Ok(2)
    } else if args[0] == 4 || args[0] == 6 {
        Ok(1)
    } else if args[0] == 7 {
        // An embedded cel: command, position (3), size (2), then the cel.
        if args.len() < 6 {
            Err(DecodeError::TruncatedInput)
        } else {
            Ok((6 + args[4] as nat + 256 * (args[5] as nat)) as nat)
        }
    } else if args[0] == 8 {
        // Priority bands: command and a table of fourteen bytes.
        Ok(15)
    } else {
        Err(DecodeError::UnrecognizedExtensionSubcommand)
    }
}

/// How many argument bytes follow an opcode, given the bytes after the
/// opcode and whether the latest `SetPattern` switched textures on.
pub open spec fn arguments_length(action: Action, args: Seq<u8>, is_pattern: bool) -> Result<
    nat,
    DecodeError,
> {
    match action {
        Action::SetVisualColour => Ok(1),
        Action::DisableVisual => Ok(0),
        Action::SetPriorityColour => Ok(1),
        Action::DisablePriority => Ok(0),
        Action::SetPattern => Ok(1),
        Action::ShortRelativePatterns => scanned_length(
            args,
            if is_pattern { 4 } else { 3 },
            if is_pattern { 2 } else { 1 },
        ),
        Action::MediumRelativePatterns => scanned_length(
            args,
            if is_pattern { 4 } else { 3 },
            if is_pattern { 3 } else { 2 },
        ),
        Action::LongPatterns => scanned_length(args, 0, if is_pattern { 4 } else { 3 }),
        Action::ShortRelativeLines => scanned_length(args, 3, 1),
        Action::MediumRelativeLines => scanned_length(args, 3, 2),
        Action::LongLines => scanned_length(args, 3, 3),
        Action::FloodFill => scanned_length(args, 0, 3),
        Action::SetControlColour => Ok(1),
        Action::DisableControl => Ok(0),
        Action::CommandExtensions => extension_length(args),
        Action::End => Ok(0),
    }
}

/// A result with `prefix` put in front of its tokens.
pub open spec fn after_tokens(prefix: Seq<Token>, rest: Result<Seq<Token>, DecodeError>) -> Result<
    Seq<Token>,
    DecodeError,
> {
    match rest {
        Ok(tokens) => Ok(prefix + tokens),
        Err(e) => Err(e),
    }
}

/// The tokens of `data`, where `is_pattern` is the texture flag in force at
/// its first byte. Every byte of `data` belongs to exactly one token.
pub open spec fn split_tokens(data: Seq<u8>, is_pattern: bool) -> Result<Seq<Token>, DecodeError>
    decreases data.len(),
{
    if data.len() == 0 {
        Ok(Seq::empty())
    } else {
        match action_of_byte(data[0]) {
            None => Err(DecodeError::UnrecognizedOpcode),
            Some(action) => match arguments_length(action, data.skip(1), is_pattern) {
                Err(e) => Err(e),
                Ok(n) => if 1 + n > data.len() {
                    Err(DecodeError::TruncatedInput)
                } else {
                    let arguments = data.subrange(1, 1 + n as int);
                    let flag = if action == Action::SetPattern {
                        arguments[0] & 0x20 != 0
                    } else {
                        is_pattern
                    };
                    after_tokens(
                        seq![Token { action, arguments }],
                        split_tokens(data.skip(1 + n as int), flag),
                    )
                },
            },
        }
    }
}

/// Putting nothing in front changes nothing.
pub proof fn lemma_after_no_tokens(rest: Result<Seq<Token>, DecodeError>)
    ensures
        after_tokens(Seq::empty(), rest) == rest,
{
    match rest {
        Ok(tokens) => {
            assert(Seq::<Token>::empty() + tokens =~= tokens);
        },
        Err(e) => {},
    }
}

/// Putting two runs in front, one after the other, is putting their
/// concatenation in front.
pub proof fn lemma_after_tokens_twice(
    first: Seq<Token>,
    second: Seq<Token>,
    rest: Result<Seq<Token>, DecodeError>,
)
    ensures
        after_tokens(first, after_tokens(second, rest)) == after_tokens(first + second, rest),
{
    match rest {
        Ok(tokens) => {
            assert(first + (second + tokens) =~= (first + second) + tokens);
        },
        Err(e) => {},
    }
}

/// A `LongLines` opcode followed by two complete groups of three bytes and
/// then a byte of 0xF0 or above takes exactly six argument bytes.
pub proof fn lemma_long_lines_two_groups(args: Seq<u8>)
    requires
        args.len() > 6,
        args[3] < 0xF0,
        args[6] >= 0xF0,
    ensures
        arguments_length(Action::LongLines, args, false) == Ok::<nat, DecodeError>(6),
        arguments_length(Action::LongLines, args, true) == Ok::<nat, DecodeError>(6),
{
    reveal_with_fuel(scan_end, 3);
}

impl Action {
    /// The opcode of a byte; bytes below 0xF0 are no opcodes.
    pub fn from_byte(b: u8) -> (r: Result<Action, DecodeError>)
        ensures
            match action_of_byte(b) {
                Some(action) => r == Ok::<Action, DecodeError>(action),
                None => r == Err::<Action, DecodeError>(DecodeError::UnrecognizedOpcode),
            },
    {
        match b {
            0xF0 => Ok(Self::SetVisualColour),
            0xF1 => Ok(Self::DisableVisual),
            0xF2 => Ok(Self::SetPriorityColour),
            0xF3 => Ok(Self::DisablePriority),
            0xF4 => Ok(Self::ShortRelativePatterns),
            0xF5 => Ok(Self::MediumRelativeLines),
            0xF6 => Ok(Self::LongLines),
            0xF7 => Ok(Self::ShortRelativeLines),
            0xF8 => Ok(Self::FloodFill),
            0xF9 => Ok(Self::SetPattern),
            0xFA => Ok(Self::LongPatterns),
            0xFB => Ok(Self::SetControlColour),
            0xFC => Ok(Self::DisableControl),
            0xFD => Ok(Self::MediumRelativePatterns),
            0xFE => Ok(Self::CommandExtensions),
            0xFF => Ok(Self::End),
            _ => Err(DecodeError::UnrecognizedOpcode),
        }
    }
}

/// Walks chunks of `chunk` bytes from `start` until a byte of 0xF0 or above
/// stands at the head of a chunk.
fn scan_arguments(args: &[u8], start: usize, chunk: usize) -> (r: Result<usize, DecodeError>)
    requires
        start <= 4,
        1 <= chunk <= 4,
    ensures
        r matches Ok(n) ==> scanned_length(args@, start as nat, chunk as nat) == Ok::<
            nat,
            DecodeError,
        >(n as nat),
        r matches Err(e) ==> scanned_length(args@, start as nat, chunk as nat) == Err::<
            nat,
            DecodeError,
        >(e),
{
    let mut bytes = start;
    while bytes < args.len() && args[bytes] < 0xf0
        invariant
            1 <= chunk <= 4,
            scan_end(args@, bytes as nat, chunk as nat) == scan_end(
                args@,
                start as nat,
                chunk as nat,
            ),
        decreases args@.len() - bytes,
    {
        if args.len() - bytes <= chunk {
            assert(scan_end(args@, (bytes + chunk) as nat, chunk as nat).is_none());
            return Err(DecodeError::TruncatedInput);
        }
        bytes += chunk;
    }
    if bytes < args.len() {
        Ok(bytes)
    } else {
        Err(DecodeError::TruncatedInput)
    }
}

fn desired_arguments_length_extensions(args: &[u8]) -> (r: Result<usize, DecodeError>)
    ensures
        r matches Ok(n) ==> extension_length(args@) == Ok::<nat, DecodeError>(n as nat),
        r matches Err(e) ==> extension_length(args@) == Err::<nat, DecodeError>(e),
{
    if args.len() == 0 {
        return Err(DecodeError::TruncatedInput);
    }
    let command = args[0];
    match command {
        0 => scan_arguments(args, 1, 2),
        1 => Ok(42),
        2 => Ok(42),
        3 => Ok(2),
        4 => Ok(1),
        5 => Ok(2),
        6 => Ok(1),
        7 => {
            if args.len() < 6 {
                return Err(DecodeError::TruncatedInput);
            }
            let size: usize = (args[4] as usize) + 256 * (args[5] as usize);
            Ok(6 + size)
        },
        8 => Ok(15),
        _ => Err(DecodeError::UnrecognizedExtensionSubcommand),
    }
}

fn desired_arguments_length_short_lines(args: &[u8]) -> (r: Result<usize, DecodeError>)
    ensures
        r matches Ok(n) ==> scanned_length(args@, 3, 1) == Ok::<nat, DecodeError>(n as nat),
        r matches Err(e) ==> scanned_length(args@, 3, 1) == Err::<nat, DecodeError>(e),
{
    scan_arguments(args, 3, 1)
}

fn desired_arguments_length_medium_lines(args: &[u8]) -> (r: Result<usize, DecodeError>)
    ensures
        r matches Ok(n) ==> scanned_length(args@, 3, 2) == Ok::<nat, DecodeError>(n as nat),
        r matches Err(e) ==> scanned_length(args@, 3, 2) == Err::<nat, DecodeError>(e),
{
    scan_arguments(args, 3, 2)
}

/// Long lines hold an absolute start and then absolute points, three bytes
/// each.
fn desired_arguments_length_long_lines(args: &[u8]) -> (r: Result<usize, DecodeError>)
    ensures
        r matches Ok(n) ==> scanned_length(args@, 3, 3) == Ok::<nat, DecodeError>(n as nat),
        r matches Err(e) ==> scanned_length(args@, 3, 3) == Err::<nat, DecodeError>(e),
{
    scan_arguments(args, 3, 3)
}

/// Fills hold any number of seeds, none included, three bytes each.
fn desired_arguments_length_fills(args: &[u8]) -> (r: Result<usize, DecodeError>)
    ensures
        r matches Ok(n) ==> scanned_length(args@, 0, 3) == Ok::<nat, DecodeError>(n as nat),
        r matches Err(e) ==> scanned_length(args@, 0, 3) == Err::<nat, DecodeError>(e),
{
    scan_arguments(args, 0, 3)
}

/// Long patterns hold absolute points, each behind a pattern number when
/// textures are on.
fn desired_arguments_length_long_patterns(args: &[u8], is_pattern: bool) -> (r: Result<
    usize,
    DecodeError,
>)
    ensures
        r matches Ok(n) ==> scanned_length(args@, 0, if is_pattern { 4 } else { 3 }) == Ok::<
            nat,
            DecodeError,
        >(n as nat),
        r matches Err(e) ==> scanned_length(args@, 0, if is_pattern { 4 } else { 3 }) == Err::<
            nat,
            DecodeError,
        >(e),
{
    let chunk_size: usize = if is_pattern { 4 } else { 3 };
    scan_arguments(args, 0, chunk_size)
}

fn desired_arguments_length_medium_patterns(args: &[u8], is_pattern: bool) -> (r: Result<
    usize,
    DecodeError,
>)
    ensures
        r matches Ok(n) ==> scanned_length(
            args@,
            if is_pattern { 4 } else { 3 },
            if is_pattern { 3 } else { 2 },
        ) == Ok::<nat, DecodeError>(n as nat),
        r matches Err(e) ==> scanned_length(
            args@,
            if is_pattern { 4 } else { 3 },
            if is_pattern { 3 } else { 2 },
        ) == Err::<nat, DecodeError>(e),
{
    let start: usize = if is_pattern { 4 } else { 3 };
    let chunk_size: usize = if is_pattern { 3 } else { 2 };
    scan_arguments(args, start, chunk_size)
}

fn desired_arguments_length_short_patterns(args: &[u8], is_pattern: bool) -> (r: Result<
    usize,
    DecodeError,
>)
    ensures
        r matches Ok(n) ==> scanned_length(
            args@,
            if is_pattern { 4 } else { 3 },
            if is_pattern { 2 } else { 1 },
        ) == Ok::<nat, DecodeError>(n as nat),
        r matches Err(e) ==> scanned_length(
            args@,
            if is_pattern { 4 } else { 3 },
            if is_pattern { 2 } else { 1 },
        ) == Err::<nat, DecodeError>(e),
{
    let start: usize = if is_pattern { 4 } else { 3 };
    let chunk_size: usize = if is_pattern { 2 } else { 1 };
    scan_arguments(args, start, chunk_size)
}

/// How many argument bytes this opcode takes from the bytes that follow it.
fn desired_arguments_length(action: Action, args: &[u8], is_pattern: bool) -> (r: Result<
    usize,
    DecodeError,
>)
    ensures
        r matches Ok(n) ==> arguments_length(action, args@, is_pattern) == Ok::<nat, DecodeError>(
            n as nat,
        ),
        r matches Err(e) ==> arguments_length(action, args@, is_pattern) == Err::<
            nat,
            DecodeError,
        >(e),
{
    match action {
        Action::SetVisualColour => Ok(1),
        Action::DisableVisual => Ok(0),
        Action::SetPriorityColour => Ok(1),
        Action::DisablePriority => Ok(0),
        Action::SetPattern => Ok(1),
        Action::ShortRelativePatterns => desired_arguments_length_short_patterns(args, is_pattern),
        Action::MediumRelativePatterns => desired_arguments_length_medium_patterns(
            args,
            is_pattern,
        ),
        Action::LongPatterns => desired_arguments_length_long_patterns(args, is_pattern),
        Action::ShortRelativeLines => desired_arguments_length_short_lines(args),
        Action::MediumRelativeLines => desired_arguments_length_medium_lines(args),
        Action::LongLines => desired_arguments_length_long_lines(args),
        Action::FloodFill => desired_arguments_length_fills(args),
        Action::SetControlColour => Ok(1),
        Action::DisableControl => Ok(0),
        Action::CommandExtensions => desired_arguments_length_extensions(args),
        Action::End => Ok(0),
    }
}

/// Splits a picture resource into its tokens, in order.
///
/// Fails with `UnrecognizedOpcode` where a byte below 0xF0 stands in opcode
/// position, with `UnrecognizedExtensionSubcommand` for an extension command
/// with a sub-command above 8, and with `TruncatedInput` where the data end
/// inside an argument list.
pub fn split(data: &[u8]) -> (r: Result<Vec<ActionArguments>, DecodeError>)
    ensures
        r matches Ok(actions) ==> split_tokens(data@, false) == Ok::<Seq<Token>, DecodeError>(
            tokens_of(actions@),
        ),
        r matches Err(e) ==> split_tokens(data@, false) == Err::<Seq<Token>, DecodeError>(e),
{
    let mut position: usize = 0;
    let mut actions: Vec<ActionArguments> = Vec::new();
    let mut is_pattern = false;
    proof {
        assert(data@.skip(0) =~= data@);
        assert(tokens_of(actions@) =~= Seq::<Token>::empty());
        lemma_after_no_tokens(split_tokens(data@, false));
    }
    while position < data.len()
        invariant
            position <= data@.len(),
            split_tokens(data@, false) == after_tokens(
                tokens_of(actions@),
                split_tokens(data@.skip(position as int), is_pattern),
            ),
        decreases data@.len() - position,
    {
        let ghost remaining = data@.skip(position as int);
        let ghost before = tokens_of(actions@);
        let action = match Action::from_byte(data[position]) {
            Ok(action) => action,
            Err(e) => {
                return Err(e);
            },
        };
        let args_onwards = &data[position + 1..data.len()];
        assert(args_onwards@ =~= remaining.skip(1));
        let args_len = match desired_arguments_length(action, args_onwards, is_pattern) {
            Ok(n) => n,
            Err(e) => {
                return Err(e);
            },
        };
        if args_len > args_onwards.len() {
            return Err(DecodeError::TruncatedInput);
        }
        let args = &args_onwards[0..args_len];
        assert(args@ =~= remaining.subrange(1, 1 + args_len));
        let ghost flag_before = is_pattern;
        if action == Action::SetPattern {
            is_pattern = args[0] & 0x20 != 0;
        }
        let token = ActionArguments { action, arguments: vstd::slice::slice_to_vec(args) };
        actions.push(token);
        position = position + 1 + args_len;
        proof {
            assert(data@.skip(position as int) =~= remaining.skip(1 + args_len));
            let rest = split_tokens(remaining.skip(1 + args_len), is_pattern);
            let head = seq![Token { action, arguments: args@ }];
            assert(split_tokens(remaining, flag_before) == after_tokens(head, rest));
            assert(tokens_of(actions@) =~= before + head);
            lemma_after_tokens_twice(before, head, rest);
        }
    }
    proof {
        assert(data@.skip(position as int).len() == 0);
        assert(tokens_of(actions@) + Seq::<Token>::empty() =~= tokens_of(actions@));
    }
    Ok(actions)
}

} // verus!
