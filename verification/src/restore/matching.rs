//! Recognising a saved window among the windows that are open.
use vstd::prelude::*;
use vstd::utf8;

use crate::ipc::HyprClient;
use crate::text;
use crate::text::{chars_of, find_char, string_of};
use crate::unicode;
use crate::unicode::to_lowercase;

verus! {

/// A Chromium application id: 32 letters from `a` to `p`.
pub open spec fn is_app_id(s: Seq<char>) -> bool {
    s.len() == 32 && forall|i: int| 0 <= i < s.len() ==> 'a' <= #[trigger] s[i] <= 'p'
}

/// A text without the underscore that it starts with, where it starts with one.
pub open spec fn without_underscore(s: Seq<char>) -> Seq<char> {
    if s.len() > 0 && s[0] == '_' {
        s.drop_first()
    } else {
        s
    }
}

/// The application id and the profile in the window class of a web app: behind the first dash
/// and an optional underscore, up to the next dash and behind it.
pub open spec fn pwa_parts(class: Seq<char>) -> Option<(Seq<char>, Seq<char>)> {
    match text::split_first(class, '-') {
        Some((_, after)) => match text::split_first(without_underscore(after), '-') {
            Some((app_id, profile)) => if is_app_id(app_id) && profile.len() > 0 {
                Some((app_id, profile))
            } else {
                None
            },
            None => None,
        },
        None => None,
    }
}

/// The two texts in an optional pair of strings.
pub open spec fn pair_texts(pair: Option<(String, String)>) -> Option<(Seq<char>, Seq<char>)> {
    match pair {
        Some((a, b)) => Some((a@, b@)),
        None => None,
    }
}

fn app_id_at(chars: &Vec<char>, from: usize, to: usize) -> (yes: bool)
    requires
        from <= to <= chars@.len(),
    ensures
        yes == is_app_id(chars@.subrange(from as int, to as int)),
{
    if to - from != 32 {
        return false;
    }
    let mut i: usize = from;
    while i < to
        invariant
            from <= i <= to <= chars@.len(),
            forall|k: int| from <= k < i ==> 'a' <= #[trigger] chars@[k] <= 'p',
        decreases to - i,
    {
        if !('a' <= chars[i] && chars[i] <= 'p') {
            proof {
                let id = chars@.subrange(from as int, to as int);
                assert(id[i - from] == chars@[i as int]);
            }
            return false;
        }
        i = i + 1;
    }
    true
}

/// Parses a Chromium/Edge PWA window class into `(app_id, profile_directory)`.
///
/// PWAs get a class like `msedge-<app_id>-<profile>`. Under XWayland the browser sets the
/// class with an extra underscore: `msedge-_<app_id>-<profile>`. Both forms are accepted. The
/// app id is the 32-char Chromium id (a-p), which is exactly what `--app-id=` expects. `None`
/// for classes that are not those of PWAs.
pub fn parse_pwa_class(class: &str) -> (parts: Option<(String, String)>)
    ensures
        pair_texts(parts) == pwa_parts(class@),
{
    let chars = chars_of(class);
    proof {
        assert(chars@.skip(0) =~= chars@);
    }
    let dash: usize = match find_char(&chars, '-', 0) {
        Some(dash) => dash,
        None => {
            return None;
        },
    };
    let ghost after = class@.skip(dash + 1);
    let start: usize = if dash + 1 < chars.len() && chars[dash + 1] == '_' {
        dash + 2
    } else {
        dash + 1
    };
    proof {
        assert(without_underscore(after) =~= chars@.skip(start as int));
    }
    let end: usize = match find_char(&chars, '-', start) {
        Some(end) => end,
        None => {
            return None;
        },
    };
    proof {
        let inner = chars@.skip(start as int);
        assert(inner.take(end - start) =~= chars@.subrange(start as int, end as int));
        assert(inner.skip(end - start + 1) =~= chars@.subrange(end + 1, chars@.len() as int));
    }
    if app_id_at(&chars, start, end) && end + 1 < chars.len() {
        Some((string_of(&chars, start, end), string_of(&chars, end + 1, chars.len())))
    } else {
        None
    }
}

/// The key by which window classes are compared.
pub open spec fn class_key_of(class: Seq<char>) -> Seq<char> {
    match pwa_parts(class) {
        Some((app_id, profile)) => pwa_key(app_id, profile),
        None => unicode::lowered(class),
    }
}

/// The key of a web app.
pub open spec fn pwa_key(app_id: Seq<char>, profile: Seq<char>) -> Seq<char> {
    "pwa:"@ + app_id + ":"@ + profile
}

/// Key used to compare window classes. Lowercase; for a Chromium/Edge PWA the key is
/// `pwa:<app_id>:<profile>`, so the Wayland form (`msedge-<id>-Default`) and the XWayland form
/// (`msedge-_<id>-Default`) of the same app match.
pub fn class_key(class: &str) -> (key: String)
    ensures
        key@ == class_key_of(class@),
        key@.len() == 0 <==> class@.len() == 0,
{
    match parse_pwa_class(class) {
        Some((app_id, profile)) => {
            let mut key = "pwa:".to_owned();
            key.append(app_id.as_str());
            key.append(":");
            key.append(profile.as_str());
            proof {
                assert(app_id@.len() == 32);
                let split = text::split_first(class@, '-');
                assert(split is Some);
                if class@.len() == 0 {
                    class@.index_of_first_ensures('-');
                }
            }
            key
        },
        None => to_lowercase(class),
    }
}

/// One of the saved keys is not empty and is one of the current keys.
pub open spec fn keys_agree(
    current: Seq<char>,
    current_initial: Seq<char>,
    saved: Seq<char>,
    saved_initial: Seq<char>,
) -> bool {
    ||| saved.len() > 0 && (current == saved || current_initial == saved)
    ||| saved_initial.len() > 0 && (current == saved_initial || current_initial == saved_initial)
}

/// Whether the class keys of two windows agree.
pub fn keys_match(
    current: &String,
    current_initial: &String,
    saved: &String,
    saved_initial: &String,
) -> (yes: bool)
    ensures
        yes == keys_agree(current@, current_initial@, saved@, saved_initial@),
{
    (!saved.as_str().is_empty() && (*current == *saved || *current_initial == *saved)) || (
    !saved_initial.as_str().is_empty() && (*current == *saved_initial || *current_initial
        == *saved_initial))
}

/// Two windows run the same executable, as far as both are known.
pub open spec fn same_executable(current: HyprClient, saved: HyprClient) -> bool {
    current.exe_path is Some && saved.exe_path is Some && current.exe_path->0@
        == saved.exe_path->0@
}

/// A window that is open is taken for a saved window: they run the same executable, or their
/// classes agree.
pub open spec fn windows_match(current: HyprClient, saved: HyprClient) -> bool {
    ||| same_executable(current, saved)
    ||| keys_agree(
        class_key_of(current.class@),
        class_key_of(current.initial_class@),
        class_key_of(saved.class@),
        class_key_of(saved.initial_class@),
    )
}

/// Whether a window that is open is taken for a saved window.
pub fn launched_window_matches(current: &HyprClient, saved: &HyprClient) -> (yes: bool)
    ensures
        yes == windows_match(*current, *saved),
{
    match (&current.exe_path, &saved.exe_path) {
        (Some(current_path), Some(saved_path)) => {
            if *current_path == *saved_path {
                return true;
            }
        },
        _ => {},
    }
    let saved_class = class_key(saved.class.as_str());
    let saved_initial_class = class_key(saved.initial_class.as_str());
    let current_class = class_key(current.class.as_str());
    let current_initial_class = class_key(current.initial_class.as_str());
    keys_match(&current_class, &current_initial_class, &saved_class, &saved_initial_class)
}

proof fn lemma_split_first(before: Seq<char>, c: char, after: Seq<char>)
    requires
        !before.contains(c),
    ensures
        text::split_first(before + seq![c] + after, c) == Some((before, after)),
{
    let s = before + seq![c] + after;
    let n = before.len() as int;
    s.index_of_first_ensures(c);
    assert(s[n] == c);
    assert(s.contains(c));
    let i = s.index_of_first(c)->0;
    if i < n {
        assert(before[i] == c);
    }
    assert(s.take(n) =~= before);
    assert(s.skip(n + 1) =~= after);
}

/// The class of a web app in its Wayland form.
pub open spec fn wayland_class(browser: Seq<char>, app_id: Seq<char>, profile: Seq<char>) -> Seq<
    char,
> {
    browser + seq!['-'] + (app_id + seq!['-'] + profile)
}

/// The class of a web app in its XWayland form.
pub open spec fn xwayland_class(browser: Seq<char>, app_id: Seq<char>, profile: Seq<char>) -> Seq<
    char,
> {
    browser + seq!['-'] + (seq!['_'] + (app_id + seq!['-'] + profile))
}

/// Both forms of the class of a web app give back its application id and its profile, which
/// may hold dashes itself.
pub proof fn law_pwa_class_forms(browser: Seq<char>, app_id: Seq<char>, profile: Seq<char>)
    requires
        !browser.contains('-'),
        is_app_id(app_id),
        profile.len() > 0,
    ensures
        pwa_parts(wayland_class(browser, app_id, profile)) == Some((app_id, profile)),
        pwa_parts(xwayland_class(browser, app_id, profile)) == Some((app_id, profile)),
{
    let inner = app_id + seq!['-'] + profile;
    assert(!app_id.contains('-')) by {
        if app_id.contains('-') {
            let i = choose|i: int| 0 <= i < app_id.len() && app_id[i] == '-';
            assert('a' <= app_id[i] <= 'p');
        }
    }
    lemma_split_first(app_id, '-', profile);
    lemma_split_first(browser, '-', inner);
    lemma_split_first(browser, '-', seq!['_'] + inner);
    assert(inner[0] == app_id[0]);
    assert('a' <= app_id[0] <= 'p');
    assert((seq!['_'] + inner).drop_first() =~= inner);
}

/// The classes of two web apps have the same key exactly when application id and profile are
/// the same.
pub proof fn law_pwa_keys_tell_apps_apart(a: Seq<char>, b: Seq<char>)
    requires
        pwa_parts(a) is Some,
        pwa_parts(b) is Some,
    ensures
        class_key_of(a) == class_key_of(b) <==> pwa_parts(a) == pwa_parts(b),
{
    let (i, p) = pwa_parts(a)->0;
    let (j, q) = pwa_parts(b)->0;
    let x = pwa_key(i, p);
    let y = pwa_key(j, q);
    if x == y {
        let n = "pwa:"@.len() as int;
        let m = n + 32 + ":"@.len() as int;
        assert(i =~= x.subrange(n, n + 32));
        assert(j =~= y.subrange(n, n + 32));
        assert(p =~= x.skip(m));
        assert(q =~= y.skip(m));
    }
}

/// A web app that was saved under XWayland is recognised under Wayland, and the other way
/// round.
pub proof fn law_pwa_forms_match(
    current: HyprClient,
    saved: HyprClient,
    browser: Seq<char>,
    app_id: Seq<char>,
    profile: Seq<char>,
)
    requires
        !browser.contains('-'),
        is_app_id(app_id),
        profile.len() > 0,
        (current.class@ == wayland_class(browser, app_id, profile) && saved.class@
            == xwayland_class(browser, app_id, profile)) || (current.class@ == xwayland_class(
            browser,
            app_id,
            profile,
        ) && saved.class@ == wayland_class(browser, app_id, profile)),
    ensures
        windows_match(current, saved),
{
    law_pwa_class_forms(browser, app_id, profile);
    assert(pwa_key(app_id, profile).len() > 0);
}

/// ASCII classes that differ in case alone match, unless they are those of web apps.
pub proof fn law_case_does_not_matter(current: HyprClient, saved: HyprClient)
    requires
        saved.class@.len() > 0,
        utf8::is_ascii_chars(current.class@),
        utf8::is_ascii_chars(saved.class@),
        pwa_parts(current.class@) is None,
        pwa_parts(saved.class@) is None,
        unicode::ascii_lowercase(current.class@) == unicode::ascii_lowercase(saved.class@),
    ensures
        windows_match(current, saved),
{
}

/// A window is taken for itself, unless nothing is known to recognise it by.
pub proof fn law_window_matches_itself(client: HyprClient)
    ensures
        windows_match(client, client) <==> (client.exe_path is Some || class_key_of(
            client.class@,
        ).len() > 0 || class_key_of(client.initial_class@).len() > 0),
{
}

/// A class is that of a web app exactly if, behind its first dash and perhaps an underscore, 32
/// letters from `a` to `p` stand up to another dash, and something behind that.
pub proof fn law_web_app_classes(
    class: Seq<char>,
    browser: Seq<char>,
    app_id: Seq<char>,
    profile: Seq<char>,
)
    ensures
        !browser.contains('-') && app_id.len() == 32 && (forall|i: int|
            0 <= i < 32 ==> 'a' <= #[trigger] app_id[i] <= 'p') && profile.len() > 0 && (class
            == browser + seq!['-'] + (app_id + seq!['-'] + profile) || class == browser + seq!['-']
            + (seq!['_'] + (app_id + seq!['-'] + profile))) ==> pwa_parts(class) == Some(
            (app_id, profile),
        ),
        pwa_parts(class) == Some((app_id, profile)) ==> {
            &&& app_id.len() == 32
            &&& forall|i: int| 0 <= i < 32 ==> 'a' <= #[trigger] app_id[i] <= 'p'
            &&& profile.len() > 0
            &&& exists|b: Seq<char>|
                !b.contains('-') && (class == #[trigger] (b + seq!['-']) + (app_id + seq!['-']
                    + profile) || class == (b + seq!['-']) + (seq!['_'] + (app_id + seq!['-']
                    + profile)))
        },
{
    if !browser.contains('-') && app_id.len() == 32 && (forall|i: int|
        0 <= i < 32 ==> 'a' <= #[trigger] app_id[i] <= 'p') && profile.len() > 0 {
        assert(is_app_id(app_id));
        law_pwa_class_forms(browser, app_id, profile);
    }
    if pwa_parts(class) == Some((app_id, profile)) {
        class.index_of_first_ensures('-');
        let i = class.index_of_first('-')->0;
        let b = class.take(i);
        let after = class.skip(i + 1);
        let inner = without_underscore(after);
        assert(!b.contains('-')) by {
            if b.contains('-') {
                let k = choose|k: int| 0 <= k < b.len() && b[k] == '-';
                assert(class[k] == '-');
            }
        }
        inner.index_of_first_ensures('-');
        let j = inner.index_of_first('-')->0;
        assert(inner =~= app_id + seq!['-'] + profile);
        assert(class =~= (b + seq!['-']) + after);
        if after.len() > 0 && after[0] == '_' {
            assert(after =~= seq!['_'] + inner);
        } else {
            assert(after =~= inner);
        }
    }
}

/// The key of a web app is made of its application id and its profile; any other class is its
/// own key, in lowercase.
pub proof fn law_class_keys(class: Seq<char>, app_id: Seq<char>, profile: Seq<char>)
    ensures
        pwa_parts(class) == Some((app_id, profile)) ==> class_key_of(class) == "pwa:"@ + app_id
            + ":"@ + profile,
        pwa_parts(class) is None ==> class_key_of(class) == unicode::lowered(class),
{
}

/// An open window matches a saved one exactly if both have a known executable and it is the same,
/// or there is a key that is not empty and is that of a class or initial class of the one and of
/// a class or initial class of the other. Nothing else about the windows counts.
pub proof fn law_windows_match_exactly(current: HyprClient, saved: HyprClient)
    ensures
        windows_match(current, saved) <==> {
            ||| current.exe_path is Some && saved.exe_path is Some && current.exe_path->0@
                == saved.exe_path->0@
            ||| exists|key: Seq<char>|
                #![trigger key.len()]
                key.len() > 0 && (key == class_key_of(saved.class@) || key == class_key_of(
                    saved.initial_class@,
                )) && (key == class_key_of(current.class@) || key == class_key_of(
                    current.initial_class@,
                ))
        },
{
    let key = class_key_of(saved.class@);
    let initial = class_key_of(saved.initial_class@);
    if key.len() > 0 {
    }
    if initial.len() > 0 {
    }
}

/// Two web apps with different application id or profile, whose initial classes are their
/// classes, do not match unless they run the same known executable, whatever their commands.
pub proof fn law_different_web_apps_do_not_match(current: HyprClient, saved: HyprClient)
    requires
        current.initial_class@ == current.class@,
        saved.initial_class@ == saved.class@,
        pwa_parts(current.class@) is Some,
        pwa_parts(saved.class@) is Some,
        pwa_parts(current.class@) != pwa_parts(saved.class@),
        current.exe_path is None || saved.exe_path is None || current.exe_path->0@
            != saved.exe_path->0@,
    ensures
        !windows_match(current, saved),
{
    law_pwa_keys_tell_apps_apart(current.class@, saved.class@);
}

/// Whether windows match depends on their executables and classes alone.
pub proof fn law_only_executable_and_classes_count(
    a: HyprClient,
    b: HyprClient,
    c: HyprClient,
    d: HyprClient,
)
    requires
        text::opt_text(a.exe_path) == text::opt_text(c.exe_path),
        text::opt_text(b.exe_path) == text::opt_text(d.exe_path),
        a.class@ == c.class@,
        b.class@ == d.class@,
        a.initial_class@ == c.initial_class@,
        b.initial_class@ == d.initial_class@,
    ensures
        windows_match(a, b) == windows_match(c, d),
{
}

/// Keys match exactly if one that is not empty is on both sides.
pub proof fn law_keys_agree(a: Seq<char>, b: Seq<char>, c: Seq<char>, d: Seq<char>)
    ensures
        keys_agree(a, b, c, d) <==> (c.len() > 0 && (a == c || b == c)) || (d.len() > 0 && (a == d
            || b == d)),
{
}

/// The two texts of a pair are shown, where there is one.
pub proof fn law_pair_is_shown(a: String, b: String)
    ensures
        pair_texts(Some((a, b))) == Some((a@, b@)),
        pair_texts(None) is None,
{
}

/// Windows that do not run the same known executable match only where a class or initial class
/// of the saved one is not empty and has the same key as a class or initial class of the other.
pub proof fn law_match_needs_a_class(current: HyprClient, saved: HyprClient)
    requires
        windows_match(current, saved),
        current.exe_path is None || saved.exe_path is None || current.exe_path->0@
            != saved.exe_path->0@,
    ensures
        ({
            ||| saved.class@.len() > 0 && (class_key_of(saved.class@) == class_key_of(
                current.class@,
            ) || class_key_of(saved.class@) == class_key_of(current.initial_class@))
            ||| saved.initial_class@.len() > 0 && (class_key_of(saved.initial_class@)
                == class_key_of(current.class@) || class_key_of(saved.initial_class@)
                == class_key_of(current.initial_class@))
        }),
{
    let none = Seq::<char>::empty();
    assert(!none.contains('-'));
    none.index_of_first_ensures('-');
    if saved.class@.len() == 0 {
        assert(saved.class@ =~= none);
        assert(class_key_of(none).len() == 0);
    }
    if saved.initial_class@.len() == 0 {
        assert(saved.initial_class@ =~= none);
        assert(class_key_of(none).len() == 0);
    }
}

} // verus!
