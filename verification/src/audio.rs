//! Speech and recording on a device: the shell commands, with the message
//! checked and quoted for the shell.

use vstd::prelude::*;

verus! {

/// What replaces a single quote inside a single-quoted shell word: end the
/// quote, an escaped quote, start a new quote.
pub open spec fn quote_piece(c: char) -> Seq<char> {
    if c == '\'' {
        seq!['\'', '\\', '\'', '\'']
    } else {
        seq![c]
    }
}

/// `s` with every `'` replaced by `'\''`.
pub open spec fn shell_escaped(s: Seq<char>) -> Seq<char>
    decreases s.len(),
{
    if s.len() == 0 {
        Seq::empty()
    } else {
        shell_escaped(s.drop_last()) + quote_piece(s.last())
    }
}

/// Escape a string for use inside single quotes in a shell command.
pub fn shell_escape(s: &str) -> (r: String)
    ensures
        r@ == shell_escaped(s@),
{
    let n = s.unicode_len();
    let mut r = String::new();
    let mut i: usize = 0;
    while i < n
        invariant
            n == s@.len(),
            i <= n,
            r@ == shell_escaped(s@.take(i as int)),
        decreases n - i,
    {
        let c = s.get_char(i);
        assert(s@.take(i + 1).drop_last() =~= s@.take(i as int));
        assert(s@.take(i + 1).last() == c);
        if c == '\'' {
            proof {
                reveal_strlit("'\\''");
            }
            assert("'\\''"@ =~= seq!['\'', '\\', '\'', '\'']);
            r.append("'\\''");
            assert(r@ =~= shell_escaped(s@.take(i + 1)));
        } else {
            let piece = s.substring_char(i, i + 1);
            r.append(piece);
            assert(piece@ =~= seq![c]);
            assert(r@ =~= shell_escaped(s@.take(i + 1)));
        }
        i = i + 1;
    }
    assert(s@.take(n as int) =~= s@);
    r
}

/// Why a message was refused.
#[derive(Debug, Clone, Copy, PartialEq, Eq, Structural)]
pub enum MessageError {
    /// The message holds a null byte or a control character other than
    /// newline and tab.
    ControlCharacters,
}

/// A character that a spoken message may not hold: a control character
/// (`char::is_control`, the ranges U+0000 to U+001F and U+007F to U+009F,
/// the null character among them) other than newline and tab.
pub open spec fn forbidden_char(c: char) -> bool {
    let u = c as u32;
    (u < 0x20 && c != '\n' && c != '\t') || (0x7f <= u && u <= 0x9f)
}

pub open spec fn has_forbidden_char(text: Seq<char>) -> bool {
    exists|i: int| 0 <= i < text.len() && forbidden_char(#[trigger] text[i])
}

impl MessageError {
    /// The error's message.
    pub fn message(&self) -> (r: String)
        ensures
            r@ == "message contains invalid control characters"@,
    {
        "message contains invalid control characters".to_owned()
    }
}

/// Check that a message has no null characters or other control
/// characters (newline and tab are allowed).
pub fn validate_message(msg: &str) -> (r: Result<(), MessageError>)
    ensures
        r is Err <==> has_forbidden_char(msg@),
{
    let n = msg.unicode_len();
    let mut i: usize = 0;
    while i < n
        invariant
            n == msg@.len(),
            i <= n,
            forall|k: int| 0 <= k < i ==> !forbidden_char(#[trigger] msg@[k]),
        decreases n - i,
    {
        let c = msg.get_char(i);
        let u = c as u32;
        if (u < 0x20 && c != '\n' && c != '\t') || (0x7f <= u && u <= 0x9f) {
            assert(forbidden_char(msg@[i as int]));
            return Err(MessageError::ControlCharacters);
        }
        i = i + 1;
    }
    Ok(())
}

/// The decimal digits of `n`.
pub open spec fn decimal(n: nat) -> Seq<char>
    decreases n,
{
    if n < 10 {
        seq![digit_char(n)]
    } else {
        decimal(n / 10).push(digit_char(n % 10))
    }
}

pub open spec fn digit_char(d: nat) -> char {
    ('0' as u32 + d) as char
}

fn digit_str(d: u64) -> (r: &'static str)
    requires
        d < 10,
    ensures
        r@ == seq![digit_char(d as nat)],
{
    proof {
        reveal_strlit("0");
        reveal_strlit("1");
        reveal_strlit("2");
        reveal_strlit("3");
        reveal_strlit("4");
        reveal_strlit("5");
        reveal_strlit("6");
        reveal_strlit("7");
        reveal_strlit("8");
        reveal_strlit("9");
    }
    let r = if d == 0 {
        "0"
    } else if d == 1 {
        "1"
    } else if d == 2 {
        "2"
    } else if d == 3 {
        "3"
    } else if d == 4 {
        "4"
    } else if d == 5 {
        "5"
    } else if d == 6 {
        "6"
    } else if d == 7 {
        "7"
    } else if d == 8 {
        "8"
    } else {
        "9"
    };
    assert(r@ =~= seq![digit_char(d as nat)]);
    r
}

/// Append the decimal digits of `n` to `out`.
pub fn push_decimal(out: &mut String, n: u64)
    ensures
        final(out)@ == old(out)@ + decimal(n as nat),
    decreases n,
{
    if n >= 10 {
        push_decimal(out, n / 10);
    }
    out.append(digit_str(n % 10));
    proof {
        if n >= 10 {
            assert(decimal(n as nat) == decimal((n / 10) as nat).push(digit_char((n % 10) as nat)));
        }
    }
}


/// The text-to-speech command for an escaped message at volume `vol`: piper
/// if installed, else espeak-ng, else espeak.
pub open spec fn speak_text(escaped: Seq<char>, vol: nat) -> Seq<char> {
    "command -v piper >/dev/null 2>&1 && echo '"@ + escaped
        + "' | piper --output_raw | aplay -r 22050 -f S16_LE -c 1 || command -v espeak-ng >/dev/null 2>&1 && espeak-ng -a "@
        + decimal(vol) + " '"@ + escaped + "' || espeak -a "@ + decimal(vol) + " '"@ + escaped + "'"@
}

/// The shell command that speaks `message` at `volume` (capped at 100);
/// refused if the message holds control characters.
pub fn speak_command(message: &str, volume: u8) -> (r: Result<String, MessageError>)
    ensures
        r is Err <==> has_forbidden_char(message@),
        r matches Ok(c) ==> c@ == speak_text(shell_escaped(message@), if volume <= 100 { volume as nat } else { 100 }),
{
    validate_message(message)?;
    let escaped = shell_escape(message);
    let vol: u64 = if volume <= 100 { volume as u64 } else { 100 };
    let mut c = String::new();
    c.append("command -v piper >/dev/null 2>&1 && echo '");
    c.append(escaped.as_str());
    c.append("' | piper --output_raw | aplay -r 22050 -f S16_LE -c 1 || command -v espeak-ng >/dev/null 2>&1 && espeak-ng -a ");
    push_decimal(&mut c, vol);
    c.append(" '");
    c.append(escaped.as_str());
    c.append("' || espeak -a ");
    push_decimal(&mut c, vol);
    c.append(" '");
    c.append(escaped.as_str());
    c.append("'");
    assert(c@ =~= speak_text(shell_escaped(message@), vol as nat));
    Ok(c)
}

/// The command that records `duration` seconds of 16 kHz mono audio.
pub open spec fn listen_text(duration: nat) -> Seq<char> {
    "arecord -d "@ + decimal(duration) + " -f S16_LE -r 16000 -c 1 '/tmp/clawcam_audio.wav'"@
}

/// The shell command that records `duration` seconds from the microphone.
pub fn listen_command(duration: u32) -> (r: String)
    ensures
        r@ == listen_text(duration as nat),
{
    let mut c = String::new();
    c.append("arecord -d ");
    push_decimal(&mut c, duration as u64);
    c.append(" -f S16_LE -r 16000 -c 1 '/tmp/clawcam_audio.wav'");
    assert(c@ =~= listen_text(duration as nat));
    c
}

} // verus!
