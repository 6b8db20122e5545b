//! What `/proc` says about the process behind a window.
use vstd::prelude::*;
use vstd::utf8;

use super::model::HyprClient;
use crate::numbers;
use crate::numbers::only_digits;
use crate::text;
use crate::text::{
    chars_of, contains_white_space, find, find_char_last, split_words, string_of,
};
use crate::unicode;
use crate::unicode::decode_lossy;

verus! {

/// What stands between the first `app-flatpak-` in a cgroup text and the `.scope` after it.
pub open spec fn flatpak_token(cgroup: Seq<char>) -> Option<Seq<char>> {
    match text::position_of(cgroup, "app-flatpak-"@) {
        Some(start) => {
            let rest = cgroup.skip(start + "app-flatpak-"@.len());
            match text::position_of(rest, ".scope"@) {
                Some(end) => Some(rest.take(end)),
                None => None,
            }
        },
        None => None,
    }
}

/// The application id in a Flatpak token: without the `-<instance number>` it ends in, where
/// it ends in one and something stands before it.
pub open spec fn flatpak_id(token: Seq<char>) -> Seq<char> {
    match text::split_last(token, '-') {
        Some((id, number)) => if id.len() > 0 && numbers::all_digits(number) {
            id
        } else {
            token
        },
        None => token,
    }
}

/// The Flatpak application id that a cgroup text names.
pub open spec fn flatpak_app_id(cgroup: Seq<char>) -> Option<Seq<char>> {
    match flatpak_token(cgroup) {
        Some(token) => Some(flatpak_id(token)),
        None => None,
    }
}

/// Extracts a Flatpak application id from a cgroup text such as
/// `0::/user.slice/.../app-flatpak-com.spotify.Client-816252360.scope`, here
/// `com.spotify.Client`. `None` where the text names no Flatpak scope.
pub fn parse_flatpak_app_id(cgroup: &str) -> (id: Option<String>)
    ensures
        text::opt_text(id) == flatpak_app_id(cgroup@),
{
    let marker = "app-flatpak-";
    let chars = chars_of(cgroup);
    let marker_chars = chars_of(marker);
    let start: usize = match find(&chars, &marker_chars) {
        Some(at) => at + marker_chars.len(),
        None => {
            return None;
        },
    };
    let rest = chars_of(string_of(&chars, start, chars.len()).as_str());
    proof {
        assert(rest@ =~= cgroup@.skip(start as int));
    }
    let end: usize = match find(&rest, &chars_of(".scope")) {
        Some(at) => at,
        None => {
            return None;
        },
    };
    let token = string_of(&rest, 0, end);
    let token_chars = chars_of(token.as_str());
    proof {
        assert(token@ =~= rest@.take(end as int));
    }
    match find_char_last(&token_chars, '-') {
        Some(dash) => {
            proof {
                assert(token@.subrange(0, dash as int) =~= token@.take(dash as int));
            }
            if dash > 0 && only_digits(&token_chars, dash + 1) {
                Some(string_of(&token_chars, 0, dash))
            } else {
                Some(token)
            }
        },
        None => Some(token),
    }
}

/// The arguments in a `cmdline` buffer: the stretches between NUL bytes, without empty ones.
pub open spec fn cmdline_fields(bytes: Seq<u8>) -> Seq<Seq<u8>> {
    text::runs(bytes, |b: u8| b == 0)
}

/// The argv that a list of arguments stands for: the words of the argument, where there is
/// only one and it holds white space, and otherwise the arguments as they are.
pub open spec fn argv(args: Seq<Seq<char>>) -> Seq<Seq<char>> {
    if args.len() == 1 && text::has_white_space(args[0]) {
        text::words(args[0])
    } else {
        args
    }
}

/// The argv in a `cmdline` buffer.
pub open spec fn cmdline_argv(bytes: Seq<u8>) -> Seq<Seq<char>> {
    argv(cmdline_fields(bytes).map_values(|field: Seq<u8>| unicode::text_of(field)))
}

/// All the arguments are UTF-8.
pub open spec fn all_utf8(fields: Seq<Seq<u8>>) -> bool {
    forall|i: int| 0 <= i < fields.len() ==> utf8::valid_utf8(#[trigger] fields[i])
}

/// The argv in a `cmdline` buffer whose arguments are UTF-8.
pub open spec fn utf8_argv(bytes: Seq<u8>) -> Seq<Seq<char>> {
    argv(cmdline_fields(bytes).map_values(|field: Seq<u8>| utf8::decode_utf8(field)))
}

/// What an argv can be: no argument is empty or holds a NUL, and an argument that is alone holds
/// no white space.
pub open spec fn is_argv(list: Seq<Seq<char>>) -> bool {
    &&& forall|i: int|
        0 <= i < list.len() ==> (#[trigger] list[i]).len() > 0 && !list[i].contains('\0')
    &&& list.len() == 1 ==> !text::has_white_space(list[0])
}

/// The buffer of a process with these arguments: each followed by a NUL byte.
pub open spec fn nul_terminated(args: Seq<Seq<u8>>) -> Seq<u8>
    decreases args.len(),
{
    if args.len() == 0 {
        Seq::empty()
    } else {
        args[0] + seq![0u8] + nul_terminated(args.drop_first())
    }
}

/// The `cmdline` buffer of a process with this argv.
pub open spec fn cmdline_of(list: Seq<Seq<char>>) -> Seq<u8> {
    nul_terminated(list.map_values(|s: Seq<char>| utf8::encode_utf8(s)))
}

/// The argv that a list of arguments stands for. A lone argument with white space in it is a
/// whole command line, as Chromium-based browsers leave it, and is split into its words.
pub fn split_lone_argument(args: Vec<String>) -> (list: Vec<String>)
    ensures
        text::texts(list@) == argv(text::texts(args@)),
{
    if args.len() == 1 && contains_white_space(args[0].as_str()) {
        split_words(args[0].as_str())
    } else {
        args
    }
}

/// The texts are not empty and hold no NUL.
spec fn are_arguments(args: Seq<Seq<char>>) -> bool {
    forall|i: int|
        0 <= i < args.len() ==> (#[trigger] args[i]).len() > 0 && !args[i].contains('\0')
}

proof fn lemma_argv(args: Seq<Seq<char>>)
    requires
        are_arguments(args),
    ensures
        is_argv(argv(args)),
{
    if args.len() == 1 && text::has_white_space(args[0]) {
        let sep = |c: char| text::is_white_space(c);
        let list = text::words(args[0]);
        assert forall|k: int| 0 <= k < list.len() implies (#[trigger] list[k]).len() > 0
            && !list[k].contains('\0') && !text::has_white_space(list[k]) by {
            text::lemma_runs(args[0], sep, k);
            if list[k].contains('\0') {
                let i = choose|i: int| 0 <= i < list[k].len() && list[k][i] == '\0';
                assert(args[0].contains(list[k][i]));
            }
            if text::has_white_space(list[k]) {
                let i = choose|i: int|
                    0 <= i < list[k].len() && text::is_white_space(#[trigger] list[k][i]);
                assert(!sep(list[k][i]));
            }
        }
    }
}

proof fn lemma_utf8_argv(bytes: Seq<u8>)
    requires
        all_utf8(cmdline_fields(bytes)),
    ensures
        cmdline_argv(bytes) == utf8_argv(bytes),
{
    let fields = cmdline_fields(bytes);
    assert(fields.map_values(|field: Seq<u8>| unicode::text_of(field)) =~= fields.map_values(
        |field: Seq<u8>| utf8::decode_utf8(field),
    ));
}

/// Splits a `/proc/<pid>/cmdline` buffer into argv.
///
/// Normal processes separate the arguments with NUL bytes. Chromium-based browsers rewrite
/// their argv area at startup and leave one string with the arguments joined by spaces; that
/// one is split at its white space, so that the first argument is the binary.
///
/// What comes of any buffer is an argv, and parsing the buffer of a process with that argv gives
/// it back.
pub fn parse_cmdline(bytes: &[u8]) -> (list: Vec<String>)
    ensures
        text::texts(list@) == cmdline_argv(bytes@),
        all_utf8(cmdline_fields(bytes@)) ==> text::texts(list@) == utf8_argv(bytes@),
        is_argv(text::texts(list@)),
        cmdline_argv(cmdline_of(text::texts(list@))) == text::texts(list@),
{
    let ghost sep = |b: u8| b == 0;
    let ghost decode = |field: Seq<u8>| unicode::text_of(field);
    let ghost fields = cmdline_fields(bytes@);
    let ghost mut done: Seq<Seq<u8>> = Seq::empty();
    let mut args: Vec<String> = Vec::new();
    let mut i: usize = 0;
    proof {
        assert(bytes@.skip(0) =~= bytes@);
        assert(done + fields =~= fields);
        assert(text::texts(args@) =~= done.map_values(decode));
    }
    while i < bytes.len()
        invariant
            i <= bytes@.len(),
            sep == (|b: u8| b == 0),
            decode == (|field: Seq<u8>| unicode::text_of(field)),
            fields == text::runs(bytes@, sep),
            done + text::runs(bytes@.skip(i as int), sep) == fields,
            text::texts(args@) == done.map_values(decode),
            are_arguments(text::texts(args@)),
        decreases bytes@.len() - i,
    {
        let ghost rest = bytes@.skip(i as int);
        if bytes[i] == 0 {
            proof {
                assert(rest.drop_first() =~= bytes@.skip(i + 1));
            }
            i = i + 1;
        } else {
            let start: usize = i;
            while i < bytes.len() && bytes[i] != 0
                invariant
                    start <= i <= bytes@.len(),
                    forall|k: int| start <= k < i ==> #[trigger] bytes@[k] != 0,
                decreases bytes@.len() - i,
            {
                i = i + 1;
            }
            let ghost before = text::texts(args@);
            let ghost n = i - start;
            let field = vstd::slice::slice_subrange(bytes, start, i);
            args.push(decode_lossy(field));
            proof {
                assert forall|k: int| 0 <= k < n implies !sep(#[trigger] rest[k]) by {
                    assert(rest[k] == bytes@[start + k]);
                }
                text::lemma_run_len_is(rest, sep, n);
                assert(rest.take(n) =~= bytes@.subrange(start as int, i as int));
                assert(rest.skip(n) =~= bytes@.skip(i as int));
                assert(done + (seq![rest.take(n)] + text::runs(rest.skip(n), sep)) =~= done.push(
                    rest.take(n),
                ) + text::runs(bytes@.skip(i as int), sep));
                let grown = done.push(rest.take(n));
                assert(text::texts(args@) =~= before.push(unicode::text_of(rest.take(n))));
                assert(grown.map_values(decode) =~= text::texts(args@));
                assert(!field@.contains(0u8)) by {
                    if field@.contains(0u8) {
                        let k = choose|k: int| 0 <= k < field@.len() && field@[k] == 0u8;
                        assert(bytes@[start + k] == 0);
                    }
                }
                assert forall|k: int| 0 <= k < text::texts(args@).len() implies (
                #[trigger] text::texts(args@)[k]).len() > 0 && !text::texts(args@)[k].contains(
                    '\0',
                ) by {
                    if k < before.len() {
                        assert(text::texts(args@)[k] == before[k]);
                    }
                }
                done = grown;
            }
        }
    }
    proof {
        assert(done + text::runs(bytes@.skip(i as int), sep) =~= done);
        if all_utf8(fields) {
            lemma_utf8_argv(bytes@);
        }
        lemma_argv(text::texts(args@));
        law_argv_is_parsed_back(argv(text::texts(args@)));
    }
    split_lone_argument(args)
}

/// A window with what the cgroup and the argv of its process say recorded. A cgroup that was
/// read decides the Flatpak id, also where it names none. An argv is recorded where one was
/// read and is not empty.
pub open spec fn has_process(
    before: HyprClient,
    after: HyprClient,
    cgroup: Option<Seq<char>>,
    cmdline: Option<Seq<u8>>,
) -> bool {
    &&& after == (HyprClient { flatpak: after.flatpak, command: after.command, ..before })
    &&& match cgroup {
        Some(cgroup) => text::opt_text(after.flatpak) == flatpak_app_id(cgroup),
        None => after.flatpak == before.flatpak,
    }
    &&& if names_argv(cmdline) {
        text::opt_texts(after.command) == Some(cmdline_argv(cmdline->0))
    } else {
        after.command == before.command
    }
}

/// Whether a `cmdline` buffer was read and names an argv.
pub open spec fn names_argv(cmdline: Option<Seq<u8>>) -> bool {
    cmdline is Some && cmdline_argv(cmdline->0).len() > 0
}

/// The text that was read, if any.
pub open spec fn read_text(s: Option<&str>) -> Option<Seq<char>> {
    match s {
        Some(s) => Some(s@),
        None => None,
    }
}

/// The bytes that were read, if any.
pub open spec fn read_bytes(bytes: Option<&[u8]>) -> Option<Seq<u8>> {
    match bytes {
        Some(bytes) => Some(bytes@),
        None => None,
    }
}

/// Records in a window what its process's cgroup and `cmdline` say, each where it could be
/// read. Answers whether the path of the executable has to be looked up too, because no argv
/// was found.
pub fn record_process(
    client: &mut HyprClient,
    cgroup: Option<&str>,
    cmdline: Option<&[u8]>,
) -> (needs_exe: bool)
    ensures
        has_process(*old(client), *final(client), read_text(cgroup), read_bytes(cmdline)),
        needs_exe == !names_argv(read_bytes(cmdline)),
        cmdline is Some && all_utf8(cmdline_fields(cmdline->0@)) ==> {
            &&& needs_exe == (utf8_argv(cmdline->0@).len() == 0)
            &&& !needs_exe ==> text::opt_texts(final(client).command) == Some(
                utf8_argv(cmdline->0@),
            )
        },
{
    match cgroup {
        Some(cgroup) => {
            client.flatpak = parse_flatpak_app_id(cgroup);
        },
        None => {},
    }
    match cmdline {
        Some(bytes) => {
            let args = parse_cmdline(bytes);
            if args.len() > 0 {
                client.command = Some(args);
                return false;
            }
        },
        None => {},
    }
    true
}

/// Records in a window the path of its executable, where it could be read.
pub fn record_exe_path(client: &mut HyprClient, path: Option<String>)
    ensures
        *final(client) == (HyprClient {
            exe_path: if path is Some {
                path
            } else {
                old(client).exe_path
            },
            ..*old(client)
        }),
{
    match path {
        Some(path) => {
            client.exe_path = Some(path);
        },
        None => {},
    }
}

/// Arguments that are not empty and hold no NUL byte are found again in the buffer in which
/// each is followed by one, in order.
pub proof fn law_cmdline_gives_back_arguments(args: Seq<Seq<u8>>)
    requires
        forall|i: int| 0 <= i < args.len() ==> (#[trigger] args[i]).len() > 0,
        forall|i: int, j: int|
            0 <= i < args.len() && 0 <= j < args[i].len() ==> #[trigger] args[i][j] != 0,
    ensures
        cmdline_fields(nul_terminated(args)) == args,
    decreases args.len(),
{
    let sep = |b: u8| b == 0;
    if args.len() > 0 {
        let rest = args.drop_first();
        assert forall|i: int| 0 <= i < rest.len() implies (#[trigger] rest[i]).len() > 0 by {
            assert(rest[i] == args[i + 1]);
        }
        assert forall|i: int, j: int|
            0 <= i < rest.len() && 0 <= j < rest[i].len() implies #[trigger] rest[i][j] != 0 by {
            assert(rest[i][j] == args[i + 1][j]);
        }
        law_cmdline_gives_back_arguments(rest);
        let bytes = nul_terminated(args);
        let n = args[0].len() as int;
        assert forall|i: int| 0 <= i < n implies !sep(#[trigger] bytes[i]) by {
            assert(bytes[i] == args[0][i]);
        }
        assert(sep(bytes[n]));
        text::lemma_run_len_is(bytes, sep, n);
        assert(!sep(bytes[0]));
        assert(bytes.take(n) =~= args[0]);
        let tail = bytes.skip(n);
        assert(tail.drop_first() =~= nul_terminated(rest));
        assert(text::runs(tail, sep) == text::runs(tail.drop_first(), sep));
        assert(seq![args[0]] + rest =~= args);
    } else {
        assert(cmdline_fields(nul_terminated(args)) =~= args);
    }
}

/// Two or more such arguments are the argv, also where they hold white space.
pub proof fn law_cmdline_keeps_spaces(args: Seq<Seq<u8>>)
    requires
        args.len() != 1,
        forall|i: int| 0 <= i < args.len() ==> (#[trigger] args[i]).len() > 0,
        forall|i: int, j: int|
            0 <= i < args.len() && 0 <= j < args[i].len() ==> #[trigger] args[i][j] != 0,
    ensures
        cmdline_argv(nul_terminated(args)) == args.map_values(
            |field: Seq<u8>| unicode::text_of(field),
        ),
{
    law_cmdline_gives_back_arguments(args);
}

/// An argv is found again in the buffer of a process that has it. Every argv that comes of a
/// buffer is one, so that parsing it again, each argument followed by a NUL byte, changes nothing.
pub proof fn law_argv_is_parsed_back(list: Seq<Seq<char>>)
    requires
        is_argv(list),
    ensures
        cmdline_argv(cmdline_of(list)) == list,
{
    let encode = |s: Seq<char>| utf8::encode_utf8(s);
    let decode = |field: Seq<u8>| unicode::text_of(field);
    let fields = list.map_values(encode);
    assert forall|i: int| 0 <= i < list.len() implies utf8::valid_utf8(#[trigger] fields[i])
        && utf8::decode_utf8(fields[i]) == list[i] && fields[i].len() > 0 && (forall|j: int|
        0 <= j < fields[i].len() ==> fields[i][j] != 0) by {
        assert(list[i].len() > 0 && !list[i].contains('\0'));
        unicode::lemma_encoded_text(list[i]);
        utf8::encode_utf8_valid_utf8(list[i]);
        utf8::encode_utf8_decode_utf8(list[i]);
        assert(fields[i] == utf8::encode_utf8(list[i]));
    }
    law_cmdline_gives_back_arguments(fields);
    assert(fields.map_values(decode) =~= list);
}

/// Reading a Flatpak scope gives back the application id in it. The id may hold dashes; the
/// marker must not stand earlier in the text, nor `.scope` inside the token.
pub proof fn law_flatpak_scope_names_app(
    before: Seq<char>,
    id: Seq<char>,
    number: Seq<char>,
    after: Seq<char>,
)
    requires
        id.len() > 0,
        numbers::all_digits(number),
        forall|j: int|
            0 <= j < before.len() ==> !#[trigger] text::stands_at(
                before + "app-flatpak-"@ + (id + seq!['-'] + number) + ".scope"@ + after,
                "app-flatpak-"@,
                j,
            ),
        forall|j: int|
            0 <= j < (id + seq!['-'] + number).len() ==> !#[trigger] text::stands_at(
                (id + seq!['-'] + number) + ".scope"@ + after,
                ".scope"@,
                j,
            ),
    ensures
        flatpak_app_id(before + "app-flatpak-"@ + (id + seq!['-'] + number) + ".scope"@ + after)
            == Some(id),
{
    let token = id + seq!['-'] + number;
    let marker = "app-flatpak-"@;
    let cgroup = before + marker + token + ".scope"@ + after;
    let start = before.len() as int;
    assert(cgroup.subrange(start, start + marker.len()) =~= marker);
    text::lemma_position_of(cgroup, marker, start);
    let rest = cgroup.skip(start + marker.len());
    assert(rest =~= token + ".scope"@ + after);
    let end = token.len() as int;
    assert(rest.subrange(end, end + ".scope"@.len()) =~= ".scope"@);
    text::lemma_position_of(rest, ".scope"@, end);
    assert(rest.take(end) =~= token);
    token.index_of_last_ensures('-');
    let dash = id.len() as int;
    assert(token[dash] == '-');
    assert(token.contains('-'));
    let last = token.index_of_last('-')->0;
    if last > dash {
        assert(token[last] == number[last - dash - 1]);
        assert(numbers::is_digit(number[last - dash - 1]));
    }
    assert(token.take(dash) =~= id);
    assert(token.skip(dash + 1) =~= number);
}

/// A NUL byte parts arguments and leaves no trace; bytes without one are one argument, or none
/// where there are none.
pub proof fn law_nul_parts_arguments(a: Seq<u8>, b: Seq<u8>)
    ensures
        cmdline_fields(a + seq![0u8] + b) == cmdline_fields(a) + cmdline_fields(b),
        (forall|i: int| 0 <= i < a.len() ==> #[trigger] a[i] != 0) ==> cmdline_fields(a)
            == if a.len() > 0 {
            seq![a]
        } else {
            Seq::<Seq<u8>>::empty()
        },
{
    let sep = |x: u8| x == 0;
    text::law_separator_parts(a, 0u8, b, sep);
    if forall|i: int| 0 <= i < a.len() ==> #[trigger] a[i] != 0 {
        assert forall|i: int| 0 <= i < a.len() implies !sep(#[trigger] a[i]) by {
            assert(a[i] != 0);
        }
        text::law_unseparated_is_one(a, sep);
        if a.len() == 0 {
            assert(cmdline_fields(a) =~= Seq::<Seq<u8>>::empty());
        }
    }
}

/// The argv of a buffer is the texts of its arguments, one by one; only where there is a single
/// argument and it holds white space, it is the words of that argument.
pub proof fn law_argv_of_a_buffer(bytes: Seq<u8>, i: int)
    ensures
        ({
            let fields = cmdline_fields(bytes);
            let lone = unicode::text_of(fields[0]);
            let spaced = fields.len() == 1 && exists|k: int|
                0 <= k < lone.len() && text::is_white_space(#[trigger] lone[k]);
            &&& spaced ==> cmdline_argv(bytes) == text::words(lone)
            &&& !spaced ==> cmdline_argv(bytes).len() == fields.len()
            &&& !spaced && 0 <= i < fields.len() ==> cmdline_argv(bytes)[i] == unicode::text_of(
                fields[i],
            )
        }),
{
    let fields = cmdline_fields(bytes);
    let args = fields.map_values(|field: Seq<u8>| unicode::text_of(field));
    if fields.len() == 1 {
        assert(args[0] == unicode::text_of(fields[0]));
    }
}

/// A cgroup text whose first `app-flatpak-` is followed by a `.scope` names the application that
/// stands between them. Where that ends in a dash and digits, or a dash alone, these are left
/// out, as long as something stands before them.
pub proof fn law_flatpak_token_names_app(
    before: Seq<char>,
    token: Seq<char>,
    after: Seq<char>,
    id: Seq<char>,
    number: Seq<char>,
)
    requires
        ({
            let rest = token + ".scope"@ + after;
            let cgroup = before + "app-flatpak-"@ + rest;
            &&& forall|j: int|
                0 <= j < before.len() ==> #[trigger] cgroup.subrange(
                    j,
                    j + "app-flatpak-"@.len(),
                ) != "app-flatpak-"@
            &&& forall|j: int|
                0 <= j < token.len() ==> #[trigger] rest.subrange(j, j + ".scope"@.len())
                    != ".scope"@
        }),
    ensures
        ({
            let cgroup = before + "app-flatpak-"@ + (token + ".scope"@ + after);
            &&& token == id + seq!['-'] + number && id.len() > 0 && (forall|k: int|
                0 <= k < number.len() ==> '0' <= #[trigger] number[k] <= '9') ==> flatpak_app_id(
                cgroup,
            ) == Some(id)
            &&& token == id + seq!['-'] + number && id.len() > 0 && (exists|k: int|
                0 <= k < number.len() && !('0' <= #[trigger] number[k] <= '9'))
                && !number.contains('-') ==> flatpak_app_id(cgroup) == Some(token)
            &&& token == seq!['-'] + number && !number.contains('-') ==> flatpak_app_id(cgroup)
                == Some(token)
            &&& !token.contains('-') ==> flatpak_app_id(cgroup) == Some(token)
        }),
{
    let marker = "app-flatpak-"@;
    let scope = ".scope"@;
    let rest = token + scope + after;
    let cgroup = before + marker + rest;
    let start = before.len() as int;
    let end = token.len() as int;
    assert(cgroup.subrange(start, start + marker.len()) =~= marker);
    text::law_first_position_is_found(cgroup, marker, start);
    assert(cgroup.skip(start + marker.len()) =~= rest);
    assert(rest.subrange(end, end + scope.len()) =~= scope);
    text::law_first_position_is_found(rest, scope, end);
    assert(rest.take(end) =~= token);
    assert(flatpak_token(cgroup) == Some(token));
    if token == id + seq!['-'] + number {
        if forall|k: int| 0 <= k < number.len() ==> '0' <= #[trigger] number[k] <= '9' {
            assert(!number.contains('-')) by {
                if number.contains('-') {
                    let k = choose|k: int| 0 <= k < number.len() && number[k] == '-';
                    assert('0' <= number[k] <= '9');
                }
            }
        }
        text::law_text_is_parted_at(id, '-', number);
    }
    if token == seq!['-'] + number {
        let none = Seq::<char>::empty();
        text::law_text_is_parted_at(none, '-', number);
        assert(token =~= none + seq!['-'] + number);
    }
    text::law_text_is_parted_at(token, '-', token);
}

/// A cgroup text names no application where no `app-flatpak-` stands in it, or no `.scope` behind
/// the first.
pub proof fn law_other_scopes_name_no_app(cgroup: Seq<char>, start: int)
    ensures
        (forall|j: int|
            0 <= j <= cgroup.len() - "app-flatpak-"@.len() ==> #[trigger] cgroup.subrange(
                j,
                j + "app-flatpak-"@.len(),
            ) != "app-flatpak-"@) ==> flatpak_app_id(cgroup) is None,
        ({
            let rest = cgroup.skip(start + "app-flatpak-"@.len());
            &&& 0 <= start <= cgroup.len() - "app-flatpak-"@.len()
            &&& cgroup.subrange(start, start + "app-flatpak-"@.len()) == "app-flatpak-"@
            &&& forall|j: int|
                0 <= j < start ==> #[trigger] cgroup.subrange(j, j + "app-flatpak-"@.len())
                    != "app-flatpak-"@
            &&& forall|j: int|
                0 <= j <= rest.len() - ".scope"@.len() ==> #[trigger] rest.subrange(
                    j,
                    j + ".scope"@.len(),
                ) != ".scope"@
        }) ==> flatpak_app_id(cgroup) is None,
{
    let marker = "app-flatpak-"@;
    text::law_first_position_is_found(cgroup, marker, start);
    match text::position_of(cgroup, marker) {
        Some(i) => {
            text::law_first_position_is_found(cgroup, marker, i);
            let rest = cgroup.skip(i + marker.len());
            match text::position_of(rest, ".scope"@) {
                Some(k) => {
                    text::law_first_position_is_found(rest, ".scope"@, k);
                },
                None => {},
            }
        },
        None => {},
    }
}

/// Recording a process changes the Flatpak id and the command of a window, and nothing else. A
/// cgroup that was read decides the id, and one that was not leaves it; an argv that is not
/// empty is recorded, and anything else leaves the command.
pub proof fn law_recording_a_process(
    before: HyprClient,
    after: HyprClient,
    cgroup: Option<Seq<char>>,
    cmdline: Option<Seq<u8>>,
)
    requires
        has_process(before, after, cgroup, cmdline),
    ensures
        after.address == before.address,
        after.at == before.at,
        after.size == before.size,
        after.workspace == before.workspace,
        after.class == before.class,
        after.title == before.title,
        after.initial_class == before.initial_class,
        after.initial_title == before.initial_title,
        after.floating == before.floating,
        after.pinned == before.pinned,
        after.monitor == before.monitor,
        after.fullscreen == before.fullscreen,
        after.xwayland == before.xwayland,
        after.pid == before.pid,
        after.exe_path == before.exe_path,
        after.grouped == before.grouped,
        cgroup is None ==> after.flatpak == before.flatpak,
        cgroup is Some ==> text::opt_text(after.flatpak) == flatpak_app_id(cgroup->0),
        cmdline is Some && cmdline_argv(cmdline->0).len() > 0 ==> text::opt_texts(after.command)
            == Some(cmdline_argv(cmdline->0)),
        cmdline is None || cmdline_argv(cmdline->0).len() == 0 ==> after.command == before.command,
{
}

/// What was read is shown as it is; and an argv is named exactly if a buffer was read and its
/// argv is not empty.
pub proof fn law_what_was_read(s: &str, bytes: &[u8], cmdline: Option<Seq<u8>>)
    ensures
        read_text(Some(s)) == Some(s@),
        read_text(None) is None,
        read_bytes(Some(bytes)) == Some(bytes@),
        read_bytes(None) is None,
        names_argv(cmdline) <==> cmdline is Some && cmdline_argv(cmdline->0).len() != 0,
{
}

/// Only a lone argument with a white space character in it is split into its words; any other
/// arguments are left as they are.
pub proof fn law_lone_argument_is_split(args: Seq<Seq<char>>)
    ensures
        args.len() == 1 && (exists|k: int|
            0 <= k < args[0].len() && text::is_white_space(#[trigger] args[0][k])) ==> argv(args)
            == text::words(args[0]),
        args.len() != 1 || (forall|k: int|
            0 <= k < args[0].len() ==> !text::is_white_space(#[trigger] args[0][k])) ==> argv(args)
            == args,
{
}

/// Where each argument in a buffer is UTF-8, its argv is that of the encoded texts.
pub proof fn law_utf8_arguments(bytes: Seq<u8>)
    ensures
        all_utf8(cmdline_fields(bytes)) <==> (forall|i: int|
            0 <= i < cmdline_fields(bytes).len() ==> utf8::valid_utf8(
                #[trigger] cmdline_fields(bytes)[i],
            )),
        all_utf8(cmdline_fields(bytes)) ==> utf8_argv(bytes) == cmdline_argv(bytes),
{
    if all_utf8(cmdline_fields(bytes)) {
        lemma_utf8_argv(bytes);
    }
}

} // verus!
