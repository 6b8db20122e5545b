//! What the replies of `hyprctl` mean.
use vstd::prelude::*;
use vstd::utf8;

use super::hypr_commands::Hyprctl;
use crate::json;
use crate::json::int_member;
use crate::text;
use crate::text::{same_text, starts_with, trim, trim_start};
use crate::unicode;
use crate::unicode::{decode, decode_lossy};

verus! {

/// Why a call of `hyprctl` failed.
#[derive(Debug)]
pub enum HyprctlError {
    /// The call was refused, with this message.
    Failed(String),
    /// The output of a query is not UTF-8.
    NotUtf8(std::string::FromUtf8Error),
}

/// The call was refused with this message.
pub open spec fn refused<T>(result: Result<T, HyprctlError>, message: Seq<char>) -> bool {
    result matches Err(HyprctlError::Failed(m)) && m@ == message
}

/// A refusal whose message is `what` followed by `detail`.
pub fn refusal(what: &str, detail: &str) -> (error: HyprctlError)
    ensures
        error matches HyprctlError::Failed(m) && m@ == what@ + detail@,
{
    let mut message = what.to_owned();
    message.append(detail);
    HyprctlError::Failed(message)
}

/// Judges a query by whether it exited with success and by what it printed, and gives the
/// output as text.
pub fn run_hyprctl(success: bool, stdout: Vec<u8>, stderr: &[u8]) -> (result: Result<
    String,
    HyprctlError,
>)
    ensures
        !success ==> refused(result, "hyprctl failed: "@ + unicode::text_of(stderr@)),
        success && utf8::valid_utf8(stdout@) ==> (result matches Ok(s) && s@
            == utf8::decode_utf8(stdout@)),
        success && !utf8::valid_utf8(stdout@) ==> result matches Err(HyprctlError::NotUtf8(_)),
{
    if !success {
        return Err(refusal("hyprctl failed: ", decode_lossy(stderr).as_str()));
    }
    match decode(stdout) {
        Ok(s) => Ok(s),
        Err(e) => Err(HyprctlError::NotUtf8(e)),
    }
}

/// A dispatch failed: it exited without success, or what it printed starts with `error:`,
/// which is how the Lua parser reports errors.
pub open spec fn dispatch_failed(success: bool, stdout: Seq<char>) -> bool {
    !success || text::stands_at(text::trimmed_start(stdout), "error:"@, 0)
}

/// The message of a failed dispatch.
pub open spec fn dispatch_message(stdout: Seq<char>, stderr: Seq<char>) -> Seq<char> {
    "Dispatch failed: "@ + (text::trimmed(stdout) + text::trimmed(stderr))
}

/// Judges a dispatch by whether it exited with success and by the texts it printed.
pub fn dispatch_outcome(success: bool, stdout: &str, stderr: &str) -> (result: Result<
    (),
    HyprctlError,
>)
    ensures
        !dispatch_failed(success, stdout@) ==> result is Ok,
        dispatch_failed(success, stdout@) ==> refused(result, dispatch_message(stdout@, stderr@)),
{
    if !success || starts_with(trim_start(stdout).as_str(), "error:") {
        let mut detail = trim(stdout);
        detail.append(trim(stderr).as_str());
        Err(refusal("Dispatch failed: ", detail.as_str()))
    } else {
        Ok(())
    }
}

/// Judges a dispatch by whether it exited with success and by the bytes it printed.
pub fn dispatch_arg(success: bool, stdout: &[u8], stderr: &[u8]) -> (result: Result<
    (),
    HyprctlError,
>)
    ensures
        !dispatch_failed(success, unicode::text_of(stdout@)) ==> result is Ok,
        dispatch_failed(success, unicode::text_of(stdout@)) ==> refused(
            result,
            dispatch_message(unicode::text_of(stdout@), unicode::text_of(stderr@)),
        ),
{
    dispatch_outcome(success, decode_lossy(stdout).as_str(), decode_lossy(stderr).as_str())
}

/// Judges a `hyprctl keyword` by whether it exited with success.
pub fn keyword_outcome(success: bool, stderr: &[u8]) -> (result: Result<(), HyprctlError>)
    ensures
        success ==> result is Ok,
        !success ==> refused(result, "keyword failed: "@ + unicode::text_of(stderr@)),
{
    if success {
        Ok(())
    } else {
        Err(refusal("keyword failed: ", decode_lossy(stderr).as_str()))
    }
}

/// Judges a call by its kind.
pub fn call_outcome(call: &Hyprctl, success: bool, stdout: &[u8], stderr: &[u8]) -> (result: Result<
    (),
    HyprctlError,
>)
    ensures
        match call {
            Hyprctl::Dispatch(_) => {
                &&& !dispatch_failed(success, unicode::text_of(stdout@)) ==> result is Ok
                &&& dispatch_failed(success, unicode::text_of(stdout@)) ==> refused(
                    result,
                    dispatch_message(unicode::text_of(stdout@), unicode::text_of(stderr@)),
                )
            },
            Hyprctl::Keyword(_, _) => {
                &&& success ==> result is Ok
                &&& !success ==> refused(
                    result,
                    "keyword failed: "@ + unicode::text_of(stderr@),
                )
            },
        },
{
    match call {
        Hyprctl::Dispatch(_) => dispatch_arg(success, stdout, stderr),
        Hyprctl::Keyword(_, _) => keyword_outcome(success, stderr),
    }
}

/// Whether the text that the probe `hl.dsp.no_op()` printed shows that the Lua parser is
/// there: it answers `ok`, and a stock Hyprland reports an invalid dispatcher.
pub fn probe_accepted(stdout: &str) -> (yes: bool)
    ensures
        yes == (text::trimmed(stdout@) == "ok"@),
{
    same_text(trim(stdout).as_str(), "ok")
}

/// Detects the `hyprland-lua` plugin parser from what the probe `hl.dsp.no_op()` printed, if
/// it could be run at all.
pub fn lua_parser(stdout: Option<&[u8]>) -> (yes: bool)
    ensures
        yes == match stdout {
            Some(bytes) => text::trimmed(unicode::text_of(bytes@)) == "ok"@,
            None => false,
        },
{
    match stdout {
        Some(bytes) => probe_accepted(decode_lossy(bytes).as_str()),
        None => false,
    }
}

/// Whether the integer value of an option means that it is on. An unknown value means off.
pub fn option_enabled(number: Option<i64>) -> (enabled: bool)
    ensures
        enabled == (number is Some && number->0 != 0),
{
    match number {
        Some(number) => number != 0,
        None => false,
    }
}

/// Reads the value of `group:group_on_movetoworkspace` out of the reply to `getoption`. Off
/// where there is no reply, or it holds no integer.
pub fn get_group_on_movetoworkspace(reply: Option<&str>) -> (enabled: bool)
    ensures
        enabled == match reply {
            Some(json) => json::json_int_member(json@, "int"@) is Some && json::json_int_member(
                json@,
                "int"@,
            )->0 != 0,
            None => false,
        },
{
    match reply {
        Some(json) => option_enabled(int_member(json, "int")),
        None => false,
    }
}

/// Output that starts with `error:`, after any white space, fails a dispatch also where it
/// exited with success.
pub proof fn law_error_marker_fails_dispatch(spaces: Seq<char>, rest: Seq<char>)
    requires
        forall|i: int| 0 <= i < spaces.len() ==> text::is_white_space(#[trigger] spaces[i]),
    ensures
        dispatch_failed(true, spaces + "error:"@ + rest),
    decreases spaces.len(),
{
    let stdout = spaces + "error:"@ + rest;
    reveal_strlit("error:");
    if spaces.len() > 0 {
        let fewer = spaces.drop_first();
        assert forall|i: int| 0 <= i < fewer.len() implies text::is_white_space(
            #[trigger] fewer[i],
        ) by {
            assert(fewer[i] == spaces[i + 1]);
        }
        law_error_marker_fails_dispatch(fewer, rest);
        assert(stdout[0] == spaces[0]);
        assert(stdout.drop_first() =~= fewer + "error:"@ + rest);
    } else {
        assert(stdout =~= "error:"@ + rest);
        assert(stdout[0] == 'e');
        assert(stdout.subrange(0, "error:"@.len() as int) =~= "error:"@);
    }
}

/// A refusal is an error that carries its message, and nothing else is one.
pub proof fn law_refusals<T>(result: Result<T, HyprctlError>, message: Seq<char>)
    ensures
        refused(result, message) <==> (match result {
            Ok(_) => false,
            Err(HyprctlError::Failed(m)) => m@ == message,
            Err(HyprctlError::NotUtf8(_)) => false,
        }),
{
}

/// A dispatch that exited with success has failed exactly if `error:` stands in what it printed
/// with nothing but white space before it; one that did not has failed in any case.
pub proof fn law_dispatch_fails_exactly(stdout: Seq<char>, blank: Seq<char>, rest: Seq<char>)
    ensures
        dispatch_failed(false, stdout),
        text::is_blank(blank) && stdout == blank + "error:"@ + rest ==> dispatch_failed(
            true,
            stdout,
        ),
        dispatch_failed(true, stdout) ==> exists|b: Seq<char>, r: Seq<char>|
            text::is_blank(b) && stdout == #[trigger] (b + "error:"@ + r),
{
    if text::is_blank(blank) && stdout == blank + "error:"@ + rest {
        law_error_marker_fails_dispatch(blank, rest);
    }
    if dispatch_failed(true, stdout) {
        let b = text::law_trimming_the_start(stdout);
        let t = text::trimmed_start(stdout);
        let r = t.skip("error:"@.len() as int);
        assert(t.subrange(0, "error:"@.len() as int) == "error:"@);
        assert(t =~= "error:"@ + r);
        assert(stdout =~= b + "error:"@ + r);
    }
}

/// The message of a failed dispatch holds what it printed, without the white space at the ends,
/// and first what stands on its output.
pub proof fn law_dispatch_message(stdout: Seq<char>, stderr: Seq<char>)
    ensures
        dispatch_message(stdout, stderr) == "Dispatch failed: "@ + text::trimmed(stdout)
            + text::trimmed(stderr),
{
    assert(dispatch_message(stdout, stderr) =~= "Dispatch failed: "@ + text::trimmed(stdout)
        + text::trimmed(stderr));
}

} // verus!
