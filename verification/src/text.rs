//! Searching, splitting and building text, over sequences of characters.
use vstd::prelude::*;

verus! {

/// `String::push`: the character is appended and nothing else changes.
pub assume_specification[ String::push ](s: &mut String, c: char)
    ensures
        final(s)@ == old(s)@.push(c),
;

/// The texts that a list of strings holds.
pub open spec fn texts(list: Seq<String>) -> Seq<Seq<char>> {
    list.map_values(|s: String| s@)
}

/// The text that an optional string holds.
pub open spec fn opt_text(s: Option<String>) -> Option<Seq<char>> {
    match s {
        Some(s) => Some(s@),
        None => None,
    }
}

/// The texts that an optional list of strings holds.
pub open spec fn opt_texts(list: Option<Vec<String>>) -> Option<Seq<Seq<char>>> {
    match list {
        Some(list) => Some(texts(list@)),
        None => None,
    }
}

/// The characters of `s`, one by one.
pub fn chars_of(s: &str) -> (chars: Vec<char>)
    ensures
        chars@ == s@,
{
    let mut chars: Vec<char> = Vec::new();
    for c in it: s.chars()
        invariant
            chars@ == s@.take(it.index()),
            it.seq() == s@,
    {
        proof {
            assert(s@.take(it.index() + 1) =~= s@.take(it.index()).push(c));
        }
        chars.push(c);
    }
    proof {
        assert(s@.take(s@.len() as int) =~= s@);
    }
    chars
}

/// The string that holds `chars[from..to]`.
pub fn string_of(chars: &Vec<char>, from: usize, to: usize) -> (s: String)
    requires
        from <= to <= chars@.len(),
    ensures
        s@ == chars@.subrange(from as int, to as int),
{
    let mut s = String::new();
    let mut i: usize = from;
    while i < to
        invariant
            from <= i <= to <= chars@.len(),
            s@ == chars@.subrange(from as int, i as int),
        decreases to - i,
    {
        s.push(chars[i]);
        proof {
            assert(chars@.subrange(from as int, i + 1) =~= chars@.subrange(from as int, i as int).push(
                chars@[i as int],
            ));
        }
        i = i + 1;
    }
    s
}

/// Whether the two texts are the same.
pub fn same_text(a: &str, b: &str) -> (same: bool)
    ensures
        same == (a@ == b@),
{
    a.to_owned() == b.to_owned()
}

/// The characters with the Unicode property `White_Space`.
pub open spec fn is_white_space(c: char) -> bool {
    ||| '\u{9}' <= c <= '\u{d}'
    ||| c == ' '
    ||| c == '\u{85}'
    ||| c == '\u{a0}'
    ||| c == '\u{1680}'
    ||| '\u{2000}' <= c <= '\u{200a}'
    ||| c == '\u{2028}'
    ||| c == '\u{2029}'
    ||| c == '\u{202f}'
    ||| c == '\u{205f}'
    ||| c == '\u{3000}'
}

/// Whether `c` is white space.
pub fn white_space(c: char) -> (yes: bool)
    ensures
        yes == is_white_space(c),
{
    ('\u{9}' <= c && c <= '\u{d}') || c == ' ' || c == '\u{85}' || c == '\u{a0}' || c == '\u{1680}'
        || ('\u{2000}' <= c && c <= '\u{200a}') || c == '\u{2028}' || c == '\u{2029}' || c
        == '\u{202f}' || c == '\u{205f}' || c == '\u{3000}'
}

/// How many items stand before the first separator.
pub open spec fn run_len<T>(s: Seq<T>, separator: spec_fn(T) -> bool) -> nat
    decreases s.len(),
{
    if s.len() == 0 || separator(s[0]) {
        0
    } else {
        1 + run_len(s.drop_first(), separator)
    }
}

/// The stretches between separators, without the empty ones, in order.
pub open spec fn runs<T>(s: Seq<T>, separator: spec_fn(T) -> bool) -> Seq<Seq<T>>
    decreases s.len(),
{
    if s.len() == 0 {
        Seq::empty()
    } else if separator(s[0]) {
        runs(s.drop_first(), separator)
    } else {
        proof {
            lemma_run_len(s, separator);
        }
        let n = run_len(s, separator) as int;
        seq![s.take(n)] + runs(s.skip(n), separator)
    }
}

/// A run is no longer than the text, and ends at a separator or at the end.
pub proof fn lemma_run_len<T>(s: Seq<T>, separator: spec_fn(T) -> bool)
    ensures
        run_len(s, separator) <= s.len(),
        forall|i: int| 0 <= i < run_len(s, separator) ==> !separator(#[trigger] s[i]),
        run_len(s, separator) < s.len() ==> separator(s[run_len(s, separator) as int]),
    decreases s.len(),
{
    if s.len() > 0 && !separator(s[0]) {
        lemma_run_len(s.drop_first(), separator);
        let n = run_len(s, separator);
        assert forall|i: int| 0 <= i < n implies !separator(#[trigger] s[i]) by {
            if i > 0 {
                assert(s[i] == s.drop_first()[i - 1]);
            }
        }
        if n < s.len() {
            assert(s[n as int] == s.drop_first()[n - 1]);
        }
    }
}

/// The length of a run, from where it ends.
pub proof fn lemma_run_len_is<T>(s: Seq<T>, separator: spec_fn(T) -> bool, n: int)
    requires
        0 <= n <= s.len(),
        forall|i: int| 0 <= i < n ==> !separator(#[trigger] s[i]),
        n < s.len() ==> separator(s[n]),
    ensures
        run_len(s, separator) == n,
{
    lemma_run_len(s, separator);
    let m = run_len(s, separator) as int;
    if m < n {
        assert(!separator(s[m]));
    } else if n < m {
        assert(!separator(s[n]));
    }
}

/// A run is not empty, and what it holds is no separator and stands in the text.
pub proof fn lemma_runs<T>(s: Seq<T>, separator: spec_fn(T) -> bool, k: int)
    requires
        0 <= k < runs(s, separator).len(),
    ensures
        runs(s, separator)[k].len() > 0,
        forall|i: int|
            0 <= i < runs(s, separator)[k].len() ==> !separator(
                #[trigger] runs(s, separator)[k][i],
            ) && s.contains(runs(s, separator)[k][i]),
    decreases s.len(),
{
    let all = runs(s, separator);
    if separator(s[0]) {
        let rest = s.drop_first();
        lemma_runs(rest, separator, k);
        assert forall|i: int| 0 <= i < all[k].len() implies !separator(#[trigger] all[k][i])
            && s.contains(all[k][i]) by {
            assert(rest.contains(all[k][i]));
            let j = choose|j: int| 0 <= j < rest.len() && rest[j] == all[k][i];
            assert(s[j + 1] == all[k][i]);
        }
    } else {
        let n = run_len(s, separator) as int;
        let rest = s.skip(n);
        lemma_run_len(s, separator);
        if k == 0 {
            assert(all[0] == s.take(n));
            assert forall|i: int| 0 <= i < all[k].len() implies !separator(#[trigger] all[k][i])
                && s.contains(all[k][i]) by {
                assert(all[k][i] == s[i]);
            }
        } else {
            lemma_runs(rest, separator, k - 1);
            assert(all[k] == runs(rest, separator)[k - 1]);
            assert forall|i: int| 0 <= i < all[k].len() implies !separator(#[trigger] all[k][i])
                && s.contains(all[k][i]) by {
                assert(runs(rest, separator)[k - 1][i] == all[k][i]);
                assert(rest.contains(all[k][i]));
                let j = choose|j: int| 0 <= j < rest.len() && rest[j] == all[k][i];
                assert(s[j + n] == all[k][i]);
            }
        }
    }
}

/// The words of a text: what stands between white space.
pub open spec fn words(s: Seq<char>) -> Seq<Seq<char>> {
    runs(s, |c: char| is_white_space(c))
}

/// Splits a text at its white space.
pub fn split_words(s: &str) -> (list: Vec<String>)
    ensures
        texts(list@) == words(s@),
{
    let chars = chars_of(s);
    let ghost sep = |c: char| is_white_space(c);
    let mut list: Vec<String> = Vec::new();
    let mut i: usize = 0;
    proof {
        assert(chars@.skip(0) =~= chars@);
        assert(texts(list@) =~= Seq::<Seq<char>>::empty());
        assert(Seq::<Seq<char>>::empty() + runs(chars@, sep) =~= runs(chars@, sep));
    }
    while i < chars.len()
        invariant
            i <= chars@.len(),
            chars@ == s@,
            sep == (|c: char| is_white_space(c)),
            texts(list@) + runs(chars@.skip(i as int), sep) == runs(chars@, sep),
        decreases chars@.len() - i,
    {
        let ghost rest = chars@.skip(i as int);
        if white_space(chars[i]) {
            proof {
                assert(rest.drop_first() =~= chars@.skip(i + 1));
            }
            i = i + 1;
        } else {
            let start: usize = i;
            while i < chars.len() && !white_space(chars[i])
                invariant
                    start <= i <= chars@.len(),
                    forall|k: int| start <= k < i ==> !is_white_space(#[trigger] chars@[k]),
                decreases chars@.len() - i,
            {
                i = i + 1;
            }
            let ghost before = list@;
            list.push(string_of(&chars, start, i));
            proof {
                let n = i - start;
                assert forall|k: int| 0 <= k < n implies !sep(#[trigger] rest[k]) by {
                    assert(rest[k] == chars@[start + k]);
                }
                lemma_run_len_is(rest, sep, n);
                assert(rest.take(n) =~= chars@.subrange(start as int, i as int));
                assert(rest.skip(n) =~= chars@.skip(i as int));
                assert(texts(list@) =~= texts(before).push(rest.take(n)));
                assert(texts(before) + (seq![rest.take(n)] + runs(rest.skip(n), sep)) =~= texts(
                    list@,
                ) + runs(chars@.skip(i as int), sep));
            }
        }
    }
    proof {
        assert(runs(chars@.skip(i as int), sep) =~= Seq::<Seq<char>>::empty());
        assert(texts(list@) + Seq::<Seq<char>>::empty() =~= texts(list@));
    }
    list
}

/// Whether a text holds white space.
pub open spec fn has_white_space(s: Seq<char>) -> bool {
    exists|i: int| 0 <= i < s.len() && is_white_space(#[trigger] s[i])
}

/// Looks for white space.
pub fn contains_white_space(s: &str) -> (yes: bool)
    ensures
        yes == has_white_space(s@),
{
    let chars = chars_of(s);
    let mut i: usize = 0;
    while i < chars.len()
        invariant
            i <= chars@.len(),
            chars@ == s@,
            forall|k: int| 0 <= k < i ==> !is_white_space(#[trigger] s@[k]),
        decreases chars@.len() - i,
    {
        if white_space(chars[i]) {
            assert(is_white_space(s@[i as int]));
            return true;
        }
        i = i + 1;
    }
    false
}

/// A text without the white space that it starts with.
pub open spec fn trimmed_start(s: Seq<char>) -> Seq<char>
    decreases s.len(),
{
    if s.len() > 0 && is_white_space(s[0]) {
        trimmed_start(s.drop_first())
    } else {
        s
    }
}

/// A text without the white space that it ends with.
pub open spec fn trimmed_end(s: Seq<char>) -> Seq<char>
    decreases s.len(),
{
    if s.len() > 0 && is_white_space(s.last()) {
        trimmed_end(s.drop_last())
    } else {
        s
    }
}

/// A text without the white space at its two ends.
pub open spec fn trimmed(s: Seq<char>) -> Seq<char> {
    trimmed_end(trimmed_start(s))
}

/// Drops the white space that a text starts with.
pub fn trim_start(s: &str) -> (t: String)
    ensures
        t@ == trimmed_start(s@),
{
    let chars = chars_of(s);
    let mut i: usize = 0;
    proof {
        assert(chars@.skip(0) =~= chars@);
    }
    while i < chars.len() && white_space(chars[i])
        invariant
            i <= chars@.len(),
            trimmed_start(chars@.skip(i as int)) == trimmed_start(chars@),
        decreases chars@.len() - i,
    {
        proof {
            assert(chars@.skip(i as int).drop_first() =~= chars@.skip(i + 1));
        }
        i = i + 1;
    }
    proof {
        assert(chars@.subrange(i as int, chars@.len() as int) =~= chars@.skip(i as int));
    }
    string_of(&chars, i, chars.len())
}

/// Drops the white space at the two ends of a text.
pub fn trim(s: &str) -> (t: String)
    ensures
        t@ == trimmed(s@),
{
    let started = trim_start(s);
    let chars = chars_of(started.as_str());
    let mut i: usize = chars.len();
    proof {
        assert(chars@.take(chars@.len() as int) =~= chars@);
    }
    while i > 0 && white_space(chars[i - 1])
        invariant
            i <= chars@.len(),
            trimmed_end(chars@.take(i as int)) == trimmed_end(chars@),
        decreases i,
    {
        proof {
            assert(chars@.take(i as int).drop_last() =~= chars@.take(i - 1));
        }
        i = i - 1;
    }
    proof {
        assert(chars@.subrange(0, i as int) =~= chars@.take(i as int));
    }
    string_of(&chars, 0, i)
}

/// `pattern` stands in `s` at position `i`.
pub open spec fn stands_at(s: Seq<char>, pattern: Seq<char>, i: int) -> bool {
    0 <= i && i + pattern.len() <= s.len() && s.subrange(i, i + pattern.len()) == pattern
}

/// `i` is the first position at which `pattern` stands in `s`.
pub open spec fn first_stands_at(s: Seq<char>, pattern: Seq<char>, i: int) -> bool {
    stands_at(s, pattern, i) && forall|j: int| 0 <= j < i ==> !#[trigger] stands_at(s, pattern, j)
}

/// The first position at which `pattern` stands in `s`, if there is one.
pub open spec fn position_of(s: Seq<char>, pattern: Seq<char>) -> Option<int> {
    if exists|i: int| stands_at(s, pattern, i) {
        Some(choose|i: int| first_stands_at(s, pattern, i))
    } else {
        None
    }
}

/// A position that is first is the one that `position_of` gives.
pub proof fn lemma_position_of(s: Seq<char>, pattern: Seq<char>, i: int)
    requires
        first_stands_at(s, pattern, i),
    ensures
        position_of(s, pattern) == Some(i),
{
    let k = choose|k: int| first_stands_at(s, pattern, k);
    assert(first_stands_at(s, pattern, k));
    assert(stands_at(s, pattern, i) && stands_at(s, pattern, k));
}

/// Whether `pattern` stands in `chars` at position `i`.
pub fn matches_at(chars: &Vec<char>, pattern: &Vec<char>, i: usize) -> (yes: bool)
    requires
        i <= chars@.len(),
    ensures
        yes == stands_at(chars@, pattern@, i as int),
{
    if pattern.len() > chars.len() - i {
        return false;
    }
    let mut k: usize = 0;
    while k < pattern.len()
        invariant
            k <= pattern@.len(),
            i + pattern@.len() <= chars.len(),
            forall|j: int| 0 <= j < k ==> chars@[i + j] == #[trigger] pattern@[j],
        decreases pattern@.len() - k,
    {
        if chars[i + k] != pattern[k] {
            proof {
                assert(chars@.subrange(i as int, i + pattern@.len())[k as int] != pattern@[k as int]);
            }
            return false;
        }
        k = k + 1;
    }
    proof {
        assert(chars@.subrange(i as int, i + pattern@.len()) =~= pattern@);
    }
    true
}

/// The first position, counted in characters, at which `pattern` stands in `chars`.
pub fn find(chars: &Vec<char>, pattern: &Vec<char>) -> (found: Option<usize>)
    ensures
        match found {
            Some(i) => position_of(chars@, pattern@) == Some(i as int) && i + pattern@.len()
                <= chars.len(),
            None => position_of(chars@, pattern@) is None,
        },
{
    let mut i: usize = 0;
    while i < chars.len()
        invariant
            i <= chars@.len(),
            forall|j: int| 0 <= j < i ==> !#[trigger] stands_at(chars@, pattern@, j),
        decreases chars@.len() - i,
    {
        if matches_at(chars, pattern, i) {
            proof {
                lemma_position_of(chars@, pattern@, i as int);
            }
            return Some(i);
        }
        i = i + 1;
    }
    if matches_at(chars, pattern, i) {
        proof {
            lemma_position_of(chars@, pattern@, i as int);
        }
        Some(i)
    } else {
        None
    }
}

/// Whether `s` starts with `prefix`.
pub fn starts_with(s: &str, prefix: &str) -> (yes: bool)
    ensures
        yes == stands_at(s@, prefix@, 0),
{
    matches_at(&chars_of(s), &chars_of(prefix), 0)
}

/// What stands before and after the first `c`.
pub open spec fn split_first(s: Seq<char>, c: char) -> Option<(Seq<char>, Seq<char>)> {
    match s.index_of_first(c) {
        Some(i) => Some((s.take(i), s.skip(i + 1))),
        None => None,
    }
}

/// What stands before and after the last `c`.
pub open spec fn split_last(s: Seq<char>, c: char) -> Option<(Seq<char>, Seq<char>)> {
    match s.index_of_last(c) {
        Some(i) => Some((s.take(i), s.skip(i + 1))),
        None => None,
    }
}

/// The first position of `c` in `chars[from..]`, counted from the start of `chars`.
pub fn find_char(chars: &Vec<char>, c: char, from: usize) -> (found: Option<usize>)
    requires
        from <= chars@.len(),
    ensures
        match found {
            Some(i) => from <= i < chars.len() && chars@.skip(from as int).index_of_first(c)
                == Some(i - from),
            None => chars@.skip(from as int).index_of_first(c) is None,
        },
{
    let ghost rest = chars@.skip(from as int);
    let mut i: usize = from;
    proof {
        rest.index_of_first_ensures(c);
    }
    while i < chars.len()
        invariant
            from <= i <= chars@.len(),
            rest == chars@.skip(from as int),
            forall|j: int| from <= j < i ==> #[trigger] chars@[j] != c,
            match rest.index_of_first(c) {
                Some(k) => rest.contains(c) && 0 <= k < rest.len() && rest[k] == c && forall|j: int|
                    0 <= j < k ==> rest[j] != c,
                None => !rest.contains(c),
            },
        decreases chars@.len() - i,
    {
        if chars[i] == c {
            proof {
                assert(rest[i - from] == c);
                let k = rest.index_of_first(c)->0;
                if k < i - from {
                    assert(chars@[from + k] == rest[k]);
                }
            }
            return Some(i);
        }
        i = i + 1;
    }
    proof {
        if rest.contains(c) {
            let k = rest.index_of_first(c)->0;
            assert(chars@[from + k] == rest[k]);
        }
    }
    None
}

/// The last position of `c` in `chars`.
pub fn find_char_last(chars: &Vec<char>, c: char) -> (found: Option<usize>)
    ensures
        match found {
            Some(i) => i < chars.len() && chars@.index_of_last(c) == Some(i as int),
            None => chars@.index_of_last(c) is None,
        },
{
    let mut i: usize = chars.len();
    while i > 0
        invariant
            i <= chars@.len(),
            forall|j: int| i <= j < chars@.len() ==> #[trigger] chars@[j] != c,
        decreases i,
    {
        i = i - 1;
        if chars[i] == c {
            proof {
                chars@.index_of_last_ensures(c);
                assert(chars@.contains(chars@[i as int]));
            }
            return Some(i);
        }
    }
    proof {
        chars@.index_of_last_ensures(c);
    }
    None
}

/// The texts one after the other, with `separator` between neighbours.
pub open spec fn joined(list: Seq<Seq<char>>, separator: Seq<char>) -> Seq<char>
    decreases list.len(),
{
    if list.len() == 0 {
        Seq::empty()
    } else if list.len() == 1 {
        list[0]
    } else {
        joined(list.drop_last(), separator) + separator + list.last()
    }
}

/// Joins strings with `separator` between neighbours.
pub fn join(list: &Vec<String>, separator: &str) -> (s: String)
    ensures
        s@ == joined(texts(list@), separator@),
{
    let mut s = String::new();
    let mut i: usize = 0;
    proof {
        assert(texts(list@).take(0) =~= Seq::<Seq<char>>::empty());
    }
    while i < list.len()
        invariant
            i <= list@.len(),
            s@ == joined(texts(list@).take(i as int), separator@),
        decreases list@.len() - i,
    {
        if i > 0 {
            s.append(separator);
        }
        s.append(list[i].as_str());
        proof {
            assert(texts(list@).take(i + 1).drop_last() =~= texts(list@).take(i as int));
            assert(texts(list@).take(i + 1).last() == list@[i as int]@);
            if i == 0 {
                assert(Seq::<char>::empty() + list@[0]@ =~= list@[0]@);
            }
        }
        i = i + 1;
    }
    proof {
        assert(texts(list@).take(i as int) =~= texts(list@));
    }
    s
}

/// Dictionary order by code points.
pub open spec fn text_le(a: Seq<char>, b: Seq<char>) -> bool
    decreases a.len(),
{
    if a.len() == 0 {
        true
    } else if b.len() == 0 {
        false
    } else if a[0] == b[0] {
        text_le(a.drop_first(), b.drop_first())
    } else {
        a[0] < b[0]
    }
}

proof fn lemma_text_le_reflexive(a: Seq<char>)
    ensures
        text_le(a, a),
    decreases a.len(),
{
    if a.len() > 0 {
        lemma_text_le_reflexive(a.drop_first());
    }
}

proof fn lemma_text_le_antisymmetric(a: Seq<char>, b: Seq<char>)
    requires
        text_le(a, b),
        text_le(b, a),
    ensures
        a == b,
    decreases a.len(),
{
    if a.len() > 0 && b.len() > 0 {
        lemma_text_le_antisymmetric(a.drop_first(), b.drop_first());
        assert(a =~= seq![a[0]] + a.drop_first());
        assert(b =~= seq![b[0]] + b.drop_first());
    } else {
        assert(a =~= b);
    }
}

proof fn lemma_text_le_transitive(a: Seq<char>, b: Seq<char>, c: Seq<char>)
    requires
        text_le(a, b),
        text_le(b, c),
    ensures
        text_le(a, c),
    decreases a.len(),
{
    if a.len() > 0 && b.len() > 0 && c.len() > 0 && a[0] == b[0] && b[0] == c[0] {
        lemma_text_le_transitive(a.drop_first(), b.drop_first(), c.drop_first());
    }
}

proof fn lemma_text_le_total(a: Seq<char>, b: Seq<char>)
    ensures
        text_le(a, b) || text_le(b, a),
    decreases a.len(),
{
    if a.len() > 0 && b.len() > 0 && a[0] == b[0] {
        lemma_text_le_total(a.drop_first(), b.drop_first());
    }
}

/// `text_le` as a relation that sequences can be sorted by.
pub open spec fn text_order() -> spec_fn(Seq<char>, Seq<char>) -> bool {
    |a: Seq<char>, b: Seq<char>| text_le(a, b)
}

/// Dictionary order is a total order.
pub proof fn lemma_text_order_is_total()
    ensures
        vstd::relations::total_ordering(text_order()),
{
    let le = text_order();
    assert forall|a: Seq<char>| #[trigger] le(a, a) by {
        lemma_text_le_reflexive(a);
    }
    assert forall|a: Seq<char>, b: Seq<char>| #[trigger] le(a, b) && #[trigger] le(b, a) implies a
        == b by {
        lemma_text_le_antisymmetric(a, b);
    }
    assert forall|a: Seq<char>, b: Seq<char>, c: Seq<char>|
        #[trigger] le(a, b) && #[trigger] le(b, c) implies le(a, c) by {
        lemma_text_le_transitive(a, b, c);
    }
    assert forall|a: Seq<char>, b: Seq<char>| #[trigger] le(a, b) || #[trigger] le(b, a) by {
        lemma_text_le_total(a, b);
    }
}

/// Whether `a` comes no later than `b` in dictionary order.
pub fn text_not_after(a: &str, b: &str) -> (yes: bool)
    ensures
        yes == text_le(a@, b@),
{
    let x = chars_of(a);
    let y = chars_of(b);
    let mut i: usize = 0;
    proof {
        assert(x@.skip(0) =~= x@);
        assert(y@.skip(0) =~= y@);
    }
    while i < x.len() && i < y.len() && x[i] == y[i]
        invariant
            i <= x@.len(),
            i <= y@.len(),
            text_le(x@.skip(i as int), y@.skip(i as int)) == text_le(x@, y@),
        decreases x@.len() - i,
    {
        proof {
            assert(x@.skip(i as int).drop_first() =~= x@.skip(i + 1));
            assert(y@.skip(i as int).drop_first() =~= y@.skip(i + 1));
        }
        i = i + 1;
    }
    if i >= x.len() {
        true
    } else if i >= y.len() {
        false
    } else {
        x[i] < y[i]
    }
}

/// The texts in dictionary order.
pub open spec fn sorted_texts(list: Seq<Seq<char>>) -> Seq<Seq<char>> {
    list.sort_by(text_order())
}

/// Putting `x` into a sorted list, behind all that come no later and before the rest.
proof fn lemma_insert_sorted(list: Seq<Seq<char>>, x: Seq<char>, at: int)
    requires
        vstd::relations::sorted_by(list, text_order()),
        0 <= at <= list.len(),
        forall|j: int| 0 <= j < at ==> text_le(#[trigger] list[j], x),
        at < list.len() ==> !text_le(list[at], x),
    ensures
        vstd::relations::sorted_by(list.insert(at, x), text_order()),
{
    let le = text_order();
    let grown = list.insert(at, x);
    lemma_text_order_is_total();
    assert forall|i: int, j: int| 0 <= i < j < grown.len() implies #[trigger] le(
        grown[i],
        grown[j],
    ) by {
        if j < at {
            assert(le(list[i], list[j]));
        } else if j == at {
        } else if i < at {
            assert(le(list[i], list[j - 1]));
        } else if i == at {
            lemma_text_le_total(list[at], x);
            if j - 1 > at {
                assert(le(list[at], list[j - 1]));
                lemma_text_le_transitive(x, list[at], list[j - 1]);
            }
        } else {
            assert(le(list[i - 1], list[j - 1]));
        }
    }
}

/// Sorts strings in dictionary order.
pub fn sort_texts(list: &Vec<String>) -> (sorted: Vec<String>)
    ensures
        texts(sorted@) == sorted_texts(texts(list@)),
{
    let mut sorted: Vec<String> = Vec::new();
    let mut i: usize = 0;
    proof {
        assert(texts(list@).take(0) =~= texts(sorted@));
    }
    while i < list.len()
        invariant
            i <= list@.len(),
            vstd::relations::sorted_by(texts(sorted@), text_order()),
            texts(sorted@).to_multiset() == texts(list@).take(i as int).to_multiset(),
        decreases list@.len() - i,
    {
        let mut at: usize = 0;
        while at < sorted.len() && text_not_after(sorted[at].as_str(), list[i].as_str())
            invariant
                i < list@.len(),
                at <= sorted@.len(),
                forall|j: int|
                    0 <= j < at ==> text_le(#[trigger] texts(sorted@)[j], list@[i as int]@),
            decreases sorted@.len() - at,
        {
            at = at + 1;
        }
        let ghost before = texts(sorted@);
        let ghost x = list@[i as int]@;
        sorted.insert(at, list[i].clone());
        proof {
            assert(texts(sorted@) =~= before.insert(at as int, x));
            lemma_insert_sorted(before, x, at as int);
            vstd::seq_lib::to_multiset_insert(before, at as int, x);
            assert(texts(list@).take(i + 1) =~= texts(list@).take(i as int).push(x));
            vstd::seq_lib::to_multiset_build(texts(list@).take(i as int), x);
        }
        i = i + 1;
    }
    proof {
        assert(texts(list@).take(i as int) =~= texts(list@));
        lemma_text_order_is_total();
        texts(list@).lemma_sort_by_ensures(text_order());
        vstd::seq_lib::lemma_sorted_unique(
            texts(sorted@),
            sorted_texts(texts(list@)),
            text_order(),
        );
    }
    sorted
}

/// The texts of a list of strings are those of the strings, one by one.
pub proof fn law_texts_show_each_string(list: Seq<String>)
    ensures
        texts(list).len() == list.len(),
        forall|i: int| 0 <= i < list.len() ==> #[trigger] texts(list)[i] == list[i]@,
{
}

/// An optional string, or list of strings, is shown where it is there, and only there.
pub proof fn law_optional_strings_are_shown(s: String, list: Vec<String>)
    ensures
        opt_text(Some(s)) == Some(s@),
        opt_text(None) is None,
        opt_texts(Some(list)) is Some,
        opt_texts(Some(list))->0.len() == list@.len(),
        forall|i: int|
            0 <= i < list@.len() ==> #[trigger] opt_texts(Some(list))->0[i] == list@[i]@,
        opt_texts(None) is None,
{
}

/// A separator parts what stands before it from what stands after it, and leaves no trace.
pub proof fn law_separator_parts<T>(a: Seq<T>, c: T, b: Seq<T>, separator: spec_fn(T) -> bool)
    requires
        separator(c),
    ensures
        runs(a + seq![c] + b, separator) == runs(a, separator) + runs(b, separator),
    decreases a.len(),
{
    let s = a + seq![c] + b;
    if a.len() == 0 {
        assert(s[0] == c);
        assert(s.drop_first() =~= b);
        assert(runs(a, separator) + runs(b, separator) =~= runs(b, separator));
    } else if separator(a[0]) {
        law_separator_parts(a.drop_first(), c, b, separator);
        assert(s[0] == a[0]);
        assert(s.drop_first() =~= a.drop_first() + seq![c] + b);
    } else {
        let n = run_len(a, separator) as int;
        lemma_run_len(a, separator);
        assert forall|i: int| 0 <= i < n implies !separator(#[trigger] s[i]) by {
            assert(s[i] == a[i]);
        }
        if n < a.len() {
            assert(s[n] == a[n]);
        } else {
            assert(s[n] == c);
        }
        lemma_run_len_is(s, separator, n);
        law_separator_parts(a.skip(n), c, b, separator);
        assert(s[0] == a[0]);
        assert(s.take(n) =~= a.take(n));
        assert(s.skip(n) =~= a.skip(n) + seq![c] + b);
        assert(runs(s, separator) =~= runs(a, separator) + runs(b, separator));
    }
}

/// What holds no separator is one stretch, or none where it is empty.
pub proof fn law_unseparated_is_one<T>(s: Seq<T>, separator: spec_fn(T) -> bool)
    requires
        forall|i: int| 0 <= i < s.len() ==> !separator(#[trigger] s[i]),
    ensures
        s.len() > 0 ==> runs(s, separator) == seq![s],
        s.len() == 0 ==> runs(s, separator).len() == 0,
{
    if s.len() > 0 {
        let n = s.len() as int;
        lemma_run_len_is(s, separator, n);
        assert(s.take(n) =~= s);
        assert(s.skip(n) =~= Seq::<T>::empty());
        assert(runs(s.skip(n), separator) =~= Seq::<Seq<T>>::empty());
        assert(runs(s, separator) =~= seq![s]);
    }
}

/// White space parts words and leaves no trace; a text without white space is one word, or none
/// where it is empty.
pub proof fn law_words_are_parted_by_white_space(a: Seq<char>, c: char, b: Seq<char>)
    ensures
        is_white_space(c) ==> words(a + seq![c] + b) == words(a) + words(b),
        (forall|i: int| 0 <= i < a.len() ==> !is_white_space(#[trigger] a[i])) ==> words(a)
            == if a.len() > 0 {
            seq![a]
        } else {
            Seq::<Seq<char>>::empty()
        },
{
    let sep = |x: char| is_white_space(x);
    if is_white_space(c) {
        assert(sep(c));
        law_separator_parts(a, c, b, sep);
    }
    if forall|i: int| 0 <= i < a.len() ==> !is_white_space(#[trigger] a[i]) {
        assert forall|i: int| 0 <= i < a.len() implies !sep(#[trigger] a[i]) by {
            assert(!is_white_space(a[i]));
        }
        law_unseparated_is_one(a, sep);
        if a.len() == 0 {
            assert(words(a) =~= Seq::<Seq<char>>::empty());
        }
    }
}

/// All of the text is white space.
pub open spec fn is_blank(s: Seq<char>) -> bool {
    forall|i: int| 0 <= i < s.len() ==> is_white_space(#[trigger] s[i])
}

/// Only white space is taken from the start of a text, and all that stands there.
pub proof fn law_trimming_the_start(s: Seq<char>) -> (blank: Seq<char>)
    ensures
        s == blank + trimmed_start(s),
        is_blank(blank),
        trimmed_start(s).len() > 0 ==> !is_white_space(trimmed_start(s)[0]),
    decreases s.len(),
{
    if s.len() > 0 && is_white_space(s[0]) {
        let rest = law_trimming_the_start(s.drop_first());
        let blank = seq![s[0]] + rest;
        assert forall|i: int| 0 <= i < blank.len() implies is_white_space(#[trigger] blank[i]) by {
            if i > 0 {
                assert(blank[i] == rest[i - 1]);
            }
        }
        assert(s =~= seq![s[0]] + s.drop_first());
        assert(s =~= blank + trimmed_start(s));
        blank
    } else {
        assert(s =~= Seq::<char>::empty() + s);
        Seq::empty()
    }
}

proof fn lemma_trimming_the_end(s: Seq<char>) -> (blank: Seq<char>)
    ensures
        s == trimmed_end(s) + blank,
        is_blank(blank),
        trimmed_end(s).len() > 0 ==> !is_white_space(trimmed_end(s).last()),
    decreases s.len(),
{
    if s.len() > 0 && is_white_space(s.last()) {
        let rest = lemma_trimming_the_end(s.drop_last());
        let blank = rest.push(s.last());
        assert forall|i: int| 0 <= i < blank.len() implies is_white_space(#[trigger] blank[i]) by {
            if i < rest.len() {
                assert(blank[i] == rest[i]);
            }
        }
        assert(s =~= s.drop_last().push(s.last()));
        assert(s =~= trimmed_end(s) + blank);
        blank
    } else {
        assert(s =~= s + Seq::<char>::empty());
        Seq::empty()
    }
}

/// Only white space is taken from the two ends of a text, and all that stands there.
pub proof fn law_trimming(s: Seq<char>) -> (ends: (Seq<char>, Seq<char>))
    ensures
        s == ends.0 + trimmed(s) + ends.1,
        is_blank(ends.0),
        is_blank(ends.1),
        trimmed(s).len() > 0 ==> !is_white_space(trimmed(s)[0]) && !is_white_space(
            trimmed(s).last(),
        ),
{
    let before = law_trimming_the_start(s);
    let after = lemma_trimming_the_end(trimmed_start(s));
    assert(s =~= before + trimmed(s) + after);
    if trimmed(s).len() > 0 {
        assert(trimmed_start(s)[0] == trimmed(s)[0]);
    }
    (before, after)
}

/// A pattern is found exactly where it stands for the first time, and not found exactly if it
/// stands nowhere.
pub proof fn law_first_position_is_found(s: Seq<char>, pattern: Seq<char>, i: int)
    ensures
        position_of(s, pattern) == Some(i) <==> {
            &&& 0 <= i <= s.len() - pattern.len()
            &&& s.subrange(i, i + pattern.len()) == pattern
            &&& forall|j: int| 0 <= j < i ==> #[trigger] s.subrange(j, j + pattern.len()) != pattern
        },
        position_of(s, pattern) is None ==> !(0 <= i <= s.len() - pattern.len() && s.subrange(
            i,
            i + pattern.len(),
        ) == pattern),
{
    if 0 <= i <= s.len() - pattern.len() && s.subrange(i, i + pattern.len()) == pattern {
        assert(stands_at(s, pattern, i));
        if forall|j: int| 0 <= j < i ==> #[trigger] s.subrange(j, j + pattern.len()) != pattern {
            assert forall|j: int| 0 <= j < i implies !#[trigger] stands_at(s, pattern, j) by {
                assert(s.subrange(j, j + pattern.len()) != pattern);
            }
            lemma_position_of(s, pattern, i);
        }
    }
    if exists|k: int| stands_at(s, pattern, k) {
        let k = choose|k: int| stands_at(s, pattern, k);
        let f = lemma_first_standing(s, pattern, k);
        lemma_position_of(s, pattern, f);
        assert forall|j: int| 0 <= j < f implies #[trigger] s.subrange(j, j + pattern.len())
            != pattern by {
            assert(!stands_at(s, pattern, j));
        }
    }
}

proof fn lemma_first_standing(s: Seq<char>, pattern: Seq<char>, k: int) -> (first: int)
    requires
        stands_at(s, pattern, k),
    ensures
        first_stands_at(s, pattern, first),
    decreases k,
{
    if exists|j: int| 0 <= j < k && #[trigger] stands_at(s, pattern, j) {
        let j = choose|j: int| 0 <= j < k && #[trigger] stands_at(s, pattern, j);
        lemma_first_standing(s, pattern, j)
    } else {
        k
    }
}

/// A text is parted at the first, or the last, of the characters that part it.
pub proof fn law_text_is_parted_at(a: Seq<char>, c: char, b: Seq<char>)
    ensures
        !a.contains(c) ==> split_first(a + seq![c] + b, c) == Some((a, b)),
        !b.contains(c) ==> split_last(a + seq![c] + b, c) == Some((a, b)),
        !a.contains(c) ==> split_first(a, c) is None && split_last(a, c) is None,
{
    let s = a + seq![c] + b;
    let n = a.len() as int;
    s.index_of_first_ensures(c);
    s.index_of_last_ensures(c);
    a.index_of_first_ensures(c);
    a.index_of_last_ensures(c);
    assert(s[n] == c);
    assert(s.contains(c));
    assert(s.take(n) =~= a);
    assert(s.skip(n + 1) =~= b);
    let i = s.index_of_first(c)->0;
    let j = s.index_of_last(c)->0;
    if !a.contains(c) && i < n {
        assert(a[i] == c);
    }
    if !b.contains(c) && j > n {
        assert(b[j - n - 1] == c);
    }
}

/// Joined texts stand one after the other, with the separator between neighbours and nowhere
/// else.
pub proof fn law_joining(a: Seq<Seq<char>>, b: Seq<Seq<char>>, x: Seq<char>, separator: Seq<char>)
    ensures
        joined(seq![x], separator) == x,
        joined(Seq::<Seq<char>>::empty(), separator).len() == 0,
        a.len() > 0 && b.len() > 0 ==> joined(a + b, separator) == joined(a, separator) + separator
            + joined(b, separator),
    decreases b.len(),
{
    if a.len() > 0 && b.len() > 0 {
        let all = a + b;
        assert(all.drop_last() =~= a + b.drop_last());
        if b.len() == 1 {
            assert(all.drop_last() =~= a);
            assert(b.last() == b[0]);
        } else {
            law_joining(a, b.drop_last(), x, separator);
            assert(joined(all, separator) =~= joined(a, separator) + separator + joined(
                b,
                separator,
            ));
        }
    }
}

/// Texts are in order by their first characters, and by what follows where these are the same;
/// what has ended comes first.
pub proof fn law_dictionary_order(a: Seq<char>, b: Seq<char>, c: char, d: char)
    ensures
        text_le(Seq::empty(), b),
        !text_le(seq![c] + a, Seq::empty()),
        text_le(seq![c] + a, seq![d] + b) <==> c < d || c == d && text_le(a, b),
{
    assert((seq![c] + a).drop_first() =~= a);
    assert((seq![d] + b).drop_first() =~= b);
}

/// Sorting keeps the texts, each as often as it was there, and puts them in order.
pub proof fn law_sorting(list: Seq<Seq<char>>)
    ensures
        sorted_texts(list).to_multiset() == list.to_multiset(),
        forall|i: int, j: int|
            0 <= i < j < sorted_texts(list).len() ==> text_le(
                #[trigger] sorted_texts(list)[i],
                #[trigger] sorted_texts(list)[j],
            ),
{
    lemma_text_order_is_total();
    list.lemma_sort_by_ensures(text_order());
    assert forall|i: int, j: int| 0 <= i < j < sorted_texts(list).len() implies text_le(
        #[trigger] sorted_texts(list)[i],
        #[trigger] sorted_texts(list)[j],
    ) by {
        assert(text_order()(sorted_texts(list)[i], sorted_texts(list)[j]));
    }
}

/// White space is what Unicode gives that property, by code point.
pub proof fn law_white_space(c: char)
    ensures
        is_white_space(c) <==> {
            let code = c as int;
            ||| 9 <= code <= 13
            ||| code == 32 || code == 133 || code == 160 || code == 5760
            ||| 8192 <= code <= 8202
            ||| code == 8232 || code == 8233 || code == 8239 || code == 8287 || code == 12288
        },
        has_white_space(seq![c]) == is_white_space(c),
{
    if is_white_space(c) {
        assert(is_white_space(seq![c][0]));
    }
}

/// A text holds white space exactly if one of its parts does.
pub proof fn law_white_space_inside(a: Seq<char>, b: Seq<char>)
    ensures
        has_white_space(a + b) <==> has_white_space(a) || has_white_space(b),
        !has_white_space(Seq::empty()),
{
    let all = a + b;
    if has_white_space(a) {
        let i = choose|i: int| 0 <= i < a.len() && is_white_space(#[trigger] a[i]);
        assert(is_white_space(all[i]));
    }
    if has_white_space(b) {
        let i = choose|i: int| 0 <= i < b.len() && is_white_space(#[trigger] b[i]);
        assert(is_white_space(all[a.len() + i]));
    }
    if has_white_space(all) {
        let i = choose|i: int| 0 <= i < all.len() && is_white_space(#[trigger] all[i]);
        if i < a.len() {
            assert(is_white_space(a[i]));
        } else {
            assert(is_white_space(b[i - a.len()]));
        }
    }
}

} // verus!
