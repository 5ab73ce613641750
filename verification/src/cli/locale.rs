//! Which language the tool speaks.
use vstd::prelude::*;

use crate::text;

verus! {

/// An ASCII capital made small.
pub open spec fn lower_char(c: char) -> char {
    if 'A' <= c <= 'Z' {
        (c as u32 + 32) as char
    } else {
        c
    }
}

/// A small ASCII letter made a capital.
pub open spec fn upper_char(c: char) -> char {
    if 'a' <= c <= 'z' {
        (c as u32 - 32) as char
    } else {
        c
    }
}

/// A text in small ASCII letters.
pub open spec fn lower(s: Seq<char>) -> Seq<char> {
    s.map_values(|c: char| lower_char(c))
}

/// A text in ASCII capitals.
pub open spec fn upper(s: Seq<char>) -> Seq<char> {
    s.map_values(|c: char| upper_char(c))
}

/// A tag with hyphens for underscores.
pub open spec fn dashed(tag: Seq<char>) -> Seq<char> {
    tag.map_values(
        |c: char|
            if c == '_' {
                '-'
            } else {
                c
            },
    )
}

/// A locale tag in the form of the bundled ones: the language in small letters and, where there is
/// one, the region in capitals.
pub open spec fn normalized(tag: Seq<char>) -> Seq<char> {
    let d = dashed(tag);
    let i = text::first_at(d, '-');
    if i >= d.len() {
        lower(d)
    } else {
        let rest = d.skip(i + 1);
        lower(d.take(i)) + seq!['-'] + upper(rest.take(text::first_at(rest, '-')))
    }
}

/// The language of a tag: what stands before the first hyphen.
pub open spec fn language(tag: Seq<char>) -> Seq<char> {
    tag.take(text::first_at(tag, '-'))
}

/// The first of the tags that has this language.
pub open spec fn with_language(tags: Seq<Seq<char>>, lang: Seq<char>) -> Option<Seq<char>>
    decreases tags.len(),
{
    if tags.len() == 0 {
        None
    } else if language(tags[0]) == lang {
        Some(tags[0])
    } else {
        with_language(tags.drop_first(), lang)
    }
}

/// The bundled locale that a tag asks for: the same one, or else one of the same language.
pub open spec fn matching(tag: Seq<char>, bundled: Seq<Seq<char>>) -> Option<Seq<char>> {
    let n = normalized(tag);
    if bundled.contains(n) {
        Some(n)
    } else {
        with_language(bundled, language(n))
    }
}

/// The bundled locale that an optional tag asks for.
pub open spec fn matching_opt(tag: Option<Seq<char>>, bundled: Seq<Seq<char>>) -> Option<
    Seq<char>,
> {
    match tag {
        Some(t) => matching(t, bundled),
        None => None,
    }
}

/// The locale: what the user asks for, or else what the system has, or else English.
pub open spec fn resolved(
    explicit: Option<Seq<char>>,
    system: Option<Seq<char>>,
    bundled: Seq<Seq<char>>,
) -> Seq<char> {
    match matching_opt(explicit, bundled) {
        Some(t) => t,
        None => match matching_opt(system, bundled) {
            Some(t) => t,
            None => "en"@,
        },
    }
}

/// An optional text.
pub open spec fn text_opt(s: Option<&str>) -> Option<Seq<char>> {
    match s {
        Some(t) => Some(t@),
        None => None,
    }
}

fn push_lower(out: &mut String, chars: &[char], from: usize, to: usize)
    requires
        from <= to <= chars@.len(),
    ensures
        final(out)@ == old(out)@ + lower(chars@.subrange(from as int, to as int)),
{
    let ghost part = lower(chars@.subrange(from as int, to as int));
    let mut i: usize = from;
    assert(old(out)@ + part.take(0) == old(out)@);
    while i < to
        invariant
            from <= i <= to <= chars@.len(),
            part == lower(chars@.subrange(from as int, to as int)),
            out@ == old(out)@ + part.take(i - from),
        decreases to - i,
    {
        let c: char = chars[i];
        let l: char = if 'A' <= c && c <= 'Z' {
            (c as u8 + 32) as char
        } else {
            c
        };
        assert(l == lower_char(c));
        out.push(l);
        i = i + 1;
        assert(part.take(i - from) == part.take(i - from - 1).push(l));
    }
    assert(part.take(i - from) == part);
}

fn push_upper(out: &mut String, chars: &[char], from: usize, to: usize)
    requires
        from <= to <= chars@.len(),
    ensures
        final(out)@ == old(out)@ + upper(chars@.subrange(from as int, to as int)),
{
    let ghost part = upper(chars@.subrange(from as int, to as int));
    let mut i: usize = from;
    assert(old(out)@ + part.take(0) == old(out)@);
    while i < to
        invariant
            from <= i <= to <= chars@.len(),
            part == upper(chars@.subrange(from as int, to as int)),
            out@ == old(out)@ + part.take(i - from),
        decreases to - i,
    {
        let c: char = chars[i];
        let u: char = if 'a' <= c && c <= 'z' {
            (c as u8 - 32) as char
        } else {
            c
        };
        assert(u == upper_char(c));
        out.push(u);
        i = i + 1;
        assert(part.take(i - from) == part.take(i - from - 1).push(u));
    }
    assert(part.take(i - from) == part);
}

fn dashed_chars(tag: &str) -> (r: Vec<char>)
    ensures
        r@ == dashed(tag@),
{
    let chars = text::chars_of(tag);
    let mut out: Vec<char> = Vec::new();
    let mut i: usize = 0;
    while i < chars.len()
        invariant
            i <= chars@.len(),
            out@.len() == i,
            forall|k: int| 0 <= k < i ==> out@[k] == dashed(chars@)[k],
        decreases chars@.len() - i,
    {
        let c: char = chars[i];
        if c == '_' {
            out.push('-');
        } else {
            out.push(c);
        }
        i = i + 1;
    }
    assert(out@ == dashed(tag@));
    out
}

/// Brings a locale tag into the form of the bundled ones, e.g. `zh-cn` and `ZH_cn` to `zh-CN`.
pub fn normalize_locale_tag(tag: &str) -> (r: String)
    ensures
        r@ == normalized(tag@),
{
    let chars = dashed_chars(tag);
    let n: usize = chars.len();
    assert(chars@.skip(0) == chars@);
    let i = text::find_char(chars.as_slice(), 0, '-');
    let mut out = String::new();
    push_lower(&mut out, chars.as_slice(), 0, i);
    assert(chars@.subrange(0, i as int) == chars@.take(i as int));
    if i >= n {
        assert(chars@.take(i as int) == chars@);
        assert(out@ == lower(chars@));
        return out;
    }
    out.push('-');
    let j = text::find_char(chars.as_slice(), i + 1, '-');
    push_upper(&mut out, chars.as_slice(), i + 1, j);
    proof {
        let rest = chars@.skip(i + 1);
        assert(chars@.subrange(i + 1, j as int) == rest.take(text::first_at(rest, '-')));
        assert(out@ == normalized(tag@));
    }
    out
}

fn language_of(tag: &str) -> (r: String)
    ensures
        r@ == language(tag@),
{
    let chars = text::chars_of(tag);
    assert(chars@.skip(0) == chars@);
    let i = text::find_char(chars.as_slice(), 0, '-');
    let out = text::text_of(chars.as_slice(), 0, i);
    assert(out@ == language(tag@));
    out
}

fn match_locale(tag: &str, bundled: &Vec<String>) -> (r: Option<String>)
    ensures
        match (r, matching(tag@, text::texts(bundled@))) {
            (Some(a), Some(b)) => a@ == b,
            (None, None) => true,
            _ => false,
        },
{
    let ghost tags = text::texts(bundled@);
    let wanted = normalize_locale_tag(tag);
    let mut i: usize = 0;
    while i < bundled.len()
        invariant
            i <= bundled@.len(),
            tags == text::texts(bundled@),
            wanted@ == normalized(tag@),
            forall|k: int| 0 <= k < i ==> tags[k] != wanted@,
        decreases bundled@.len() - i,
    {
        if text::same_text(bundled[i].as_str(), wanted.as_str()) {
            assert(tags[i as int] == wanted@);
            return Some(wanted);
        }
        i = i + 1;
    }
    assert(!tags.contains(wanted@));
    let lang = language_of(wanted.as_str());
    let mut j: usize = 0;
    assert(tags.skip(0) == tags);
    while j < bundled.len()
        invariant
            j <= bundled@.len(),
            tags == text::texts(bundled@),
            lang@ == language(normalized(tag@)),
            !tags.contains(normalized(tag@)),
            with_language(tags, lang@) == with_language(tags.skip(j as int), lang@),
        decreases bundled@.len() - j,
    {
        assert(tags.skip(j as int)[0] == bundled@[j as int]@);
        let other = language_of(bundled[j].as_str());
        if text::same_text(other.as_str(), lang.as_str()) {
            return Some(text::copy_text(bundled[j].as_str()));
        }
        assert(tags.skip(j as int).drop_first() == tags.skip(j as int + 1));
        j = j + 1;
    }
    assert(tags.skip(j as int).len() == 0);
    None
}

/// Chooses the locale: the bundled one that `explicit` asks for, or else the one that `system`
/// asks for, or else `"en"`.
pub fn resolve_locale(
    explicit: Option<&str>,
    system: Option<&str>,
    bundled: &Vec<String>,
) -> (r: String)
    ensures
        r@ == resolved(text_opt(explicit), text_opt(system), text::texts(bundled@)),
{
    if let Some(tag) = explicit {
        if let Some(found) = match_locale(tag, bundled) {
            return found;
        }
    }
    if let Some(tag) = system {
        if let Some(found) = match_locale(tag, bundled) {
            return found;
        }
    }
    text::copy_text("en")
}

/// The language that the arguments ask for: what follows the first `--lang` or `-l`, or what
/// stands in the first `--lang=...`, whichever comes first.
pub open spec fn lang_argument(args: Seq<Seq<char>>) -> Option<Seq<char>>
    decreases args.len(),
{
    if args.len() == 0 {
        None
    } else if args[0] == "--lang"@ || args[0] == "-l"@ {
        if args.len() > 1 {
            Some(args[1])
        } else {
            None
        }
    } else if "--lang="@.is_prefix_of(args[0]) {
        Some(args[0].skip("--lang="@.len() as int))
    } else {
        lang_argument(args.drop_first())
    }
}

fn after_prefix(s: &str, prefix: &str) -> (r: Option<String>)
    ensures
        match r {
            Some(rest) => prefix@.is_prefix_of(s@) && rest@ == s@.skip(prefix@.len() as int),
            None => !prefix@.is_prefix_of(s@),
        },
{
    let a = text::chars_of(s);
    let b = text::chars_of(prefix);
    if a.len() < b.len() {
        return None;
    }
    let mut i: usize = 0;
    while i < b.len()
        invariant
            i <= b@.len() <= a@.len(),
            a@ == s@,
            b@ == prefix@,
            forall|k: int| 0 <= k < i ==> a@[k] == b@[k],
        decreases b@.len() - i,
    {
        if a[i] != b[i] {
            proof {
                if prefix@.is_prefix_of(s@) {
                    assert(s@.take(prefix@.len() as int)[i as int] == prefix@[i as int]);
                }
            }
            return None;
        }
        i = i + 1;
    }
    assert(s@.take(prefix@.len() as int) == prefix@);
    let rest = text::text_of(a.as_slice(), b.len(), a.len());
    assert(rest@ == s@.skip(prefix@.len() as int));
    Some(rest)
}

/// Looks for the language among the arguments, before they are parsed: help is printed in it.
pub fn pre_scan_lang(args: &Vec<String>) -> (r: Option<String>)
    ensures
        match (r, lang_argument(text::texts(args@))) {
            (Some(a), Some(b)) => a@ == b,
            (None, None) => true,
            _ => false,
        },
{
    let ghost all = text::texts(args@);
    let mut i: usize = 0;
    assert(all.skip(0) == all);
    while i < args.len()
        invariant
            i <= args@.len(),
            all == text::texts(args@),
            lang_argument(all) == lang_argument(all.skip(i as int)),
        decreases args@.len() - i,
    {
        let ghost rest = all.skip(i as int);
        assert(rest[0] == args@[i as int]@);
        if text::same_text(args[i].as_str(), "--lang") || text::same_text(args[i].as_str(), "-l") {
            if i + 1 < args.len() {
                assert(rest[1] == args@[i + 1]@);
                return Some(text::copy_text(args[i + 1].as_str()));
            }
            return None;
        }
        if let Some(v) = after_prefix(args[i].as_str(), "--lang=") {
            return Some(v);
        }
        assert(rest.drop_first() == all.skip(i as int + 1));
        i = i + 1;
    }
    assert(all.skip(i as int).len() == 0);
    None
}

/// How many seconds a query may take, unless the user says otherwise.
pub const DEFAULT_TIMEOUT_SECS: u64 = 6;

/// How many seconds a query may take, by what the user gives.
pub open spec fn seconds_for(max_time: Option<Seq<char>>) -> nat {
    match max_time {
        Some(s) => match text::number_of(s, u64::MAX as nat) {
            Some(n) => n,
            None => DEFAULT_TIMEOUT_SECS as nat,
        },
        None => DEFAULT_TIMEOUT_SECS as nat,
    }
}

/// How many seconds a query may take: the number that the user gives, or else the default.
pub fn timeout_secs(max_time: Option<&str>) -> (r: u64)
    ensures
        r == seconds_for(text_opt(max_time)),
        r == (match text_opt(max_time) {
            Some(s) => match text::number_of(s, u64::MAX as nat) {
                Some(n) => n,
                None => DEFAULT_TIMEOUT_SECS as nat,
            },
            None => DEFAULT_TIMEOUT_SECS as nat,
        }),
{
    if let Some(s) = max_time {
        if let Some(n) = text::parse_number(s, u64::MAX) {
            return n;
        }
    }
    DEFAULT_TIMEOUT_SECS
}

// ==================== Laws ====================

proof fn lemma_with_language(tags: Seq<Seq<char>>, lang: Seq<char>)
    ensures
        with_language(tags, lang) matches Some(t) ==> tags.contains(t) && language(t) == lang,
    decreases tags.len(),
{
    if tags.len() > 0 {
        if language(tags[0]) == lang {
            assert(tags.contains(tags[0]));
        } else {
            lemma_with_language(tags.drop_first(), lang);
            if let Some(t) = with_language(tags.drop_first(), lang) {
                let k = choose|k: int| 0 <= k < tags.len() - 1 && tags.drop_first()[k] == t;
                assert(tags[k + 1] == t);
            }
        }
    }
}

/// The locale is a bundled one, or English.
pub proof fn law_locale_is_known(
    explicit: Option<Seq<char>>,
    system: Option<Seq<char>>,
    bundled: Seq<Seq<char>>,
)
    ensures
        bundled.contains(resolved(explicit, system, bundled)) || resolved(explicit, system, bundled)
            == "en"@,
{
    if let Some(t) = explicit {
        lemma_with_language(bundled, language(normalized(t)));
    }
    if let Some(t) = system {
        lemma_with_language(bundled, language(normalized(t)));
    }
}

/// A bundled locale that the user names, in capitals or small letters, with a hyphen or an
/// underscore, is the locale, whatever the system has.
pub proof fn law_named_locale_wins(
    tag: Seq<char>,
    system: Option<Seq<char>>,
    bundled: Seq<Seq<char>>,
)
    requires
        bundled.contains(normalized(tag)),
    ensures
        resolved(Some(tag), system, bundled) == normalized(tag),
{
}

/// A tag in the form of the bundled ones keeps its form.
pub proof fn law_normal_form_is_kept(tag: Seq<char>)
    ensures
        normalized(normalized(tag)) == normalized(tag),
{
    let d = dashed(tag);
    let i = text::first_at(d, '-');
    text::lemma_first_at_bounds(d, '-');
    let n = normalized(tag);
    if i >= d.len() {
        assert forall|k: int| 0 <= k < n.len() implies n[k] != '-' && n[k] != '_' by {
            assert(n[k] == lower_char(d[k]));
            assert(d[k] != '-');
        }
        assert(dashed(n) == n);
        text::lemma_first_at(n, '-', n.len() as int);
        assert(lower(n) == n) by {
            assert forall|k: int| 0 <= k < n.len() implies lower_char(n[k]) == n[k] by {
                assert(n[k] == lower_char(d[k]));
            }
        }
    } else {
        let rest = d.skip(i + 1);
        text::lemma_first_at_bounds(rest, '-');
        let j = text::first_at(rest, '-');
        let a = lower(d.take(i));
        let b = upper(rest.take(j));
        assert(n == a + seq!['-'] + b);
        assert forall|k: int| 0 <= k < i implies a[k] != '-' && a[k] != '_' && lower_char(a[k])
            == a[k] by {
            assert(a[k] == lower_char(d[k]));
        }
        assert forall|k: int| 0 <= k < j implies b[k] != '-' && b[k] != '_' && upper_char(b[k])
            == b[k] by {
            assert(b[k] == upper_char(rest[k]));
            assert(rest[k] == d[i + 1 + k]);
        }
        assert(dashed(n) == n) by {
            assert forall|k: int| 0 <= k < n.len() implies n[k] != '_' by {
                if k < i {
                    assert(n[k] == a[k]);
                } else if k > i {
                    assert(n[k] == b[k - i - 1]);
                }
            }
        }
        assert forall|k: int| 0 <= k < i implies n[k] != '-' by {
            assert(n[k] == a[k]);
        }
        assert(n[i] == '-');
        text::lemma_first_at(n, '-', i);
        let tail = n.skip(i + 1);
        assert(tail == b);
        text::lemma_first_at(b, '-', j);
        assert(n.take(i) == a);
        assert(tail.take(j) == b);
        assert(lower(a) == a);
        assert(upper(b) == b);
    }
}

/// Letters change their case and nothing else does: a capital and its small letter are 32 apart.
pub proof fn law_case(c: char)
    ensures
        'A' <= c <= 'Z' ==> lower_char(c) as u32 == c as u32 + 32 && upper_char(lower_char(c)) == c,
        'a' <= c <= 'z' ==> upper_char(c) as u32 + 32 == c as u32 && lower_char(upper_char(c)) == c,
        !('A' <= c <= 'Z') ==> lower_char(c) == c,
        !('a' <= c <= 'z') ==> upper_char(c) == c,
{
}

/// A tag of a language and a region, with a hyphen or an underscore between them and whatever
/// behind them, has the form of the language in small letters, a hyphen, and the region in
/// capitals. A language alone is made small.
pub proof fn law_normal_form(lang: Seq<char>, sep: char, region: Seq<char>, tail: Seq<char>)
    requires
        !lang.contains('-') && !lang.contains('_'),
        !region.contains('-') && !region.contains('_'),
        sep == '-' || sep == '_',
        tail.len() == 0 || tail[0] == '-' || tail[0] == '_',
    ensures
        normalized(lang) == lower(lang),
        normalized(lang + seq![sep] + region + tail) == lower(lang) + seq!['-'] + upper(region),
        lower(lang).len() == lang.len(),
        upper(region).len() == region.len(),
        forall|i: int| 0 <= i < lang.len() ==> #[trigger] lower(lang)[i] == lower_char(lang[i]),
        forall|i: int|
            0 <= i < region.len() ==> #[trigger] upper(region)[i] == upper_char(region[i]),
{
    let n = lang.len() as int;
    let m = region.len() as int;
    assert forall|k: int| 0 <= k < n implies lang[k] != '-' && lang[k] != '_' by {
        assert(lang.contains(lang[k]));
    }
    assert forall|k: int| 0 <= k < m implies region[k] != '-' && region[k] != '_' by {
        assert(region.contains(region[k]));
    }
    assert(dashed(lang) =~= lang);
    text::lemma_first_at(lang, '-', n);
    let tag = lang + seq![sep] + region + tail;
    let d = dashed(tag);
    assert forall|k: int| 0 <= k < n implies d[k] == lang[k] by {}
    assert(d[n] == '-');
    text::lemma_first_at(d, '-', n);
    assert(d.take(n) =~= lang);
    let rest = d.skip(n + 1);
    assert forall|k: int| 0 <= k < m implies rest[k] == region[k] by {}
    if tail.len() > 0 {
        assert(rest[m] == '-');
    }
    text::lemma_first_at(rest, '-', m);
    assert(rest.take(m) =~= region);
}

/// The language of a tag is what stands before its first hyphen, or all of it.
pub proof fn law_language(lang: Seq<char>, rest: Seq<char>)
    requires
        !lang.contains('-'),
    ensures
        language(lang) == lang,
        language(lang + seq!['-'] + rest) == lang,
{
    let n = lang.len() as int;
    let tag = lang + seq!['-'] + rest;
    assert forall|k: int| 0 <= k < n implies lang[k] != '-' && tag[k] != '-' by {
        assert(lang.contains(lang[k]));
    }
    assert(tag[n] == '-');
    text::lemma_first_at(lang, '-', n);
    text::lemma_first_at(tag, '-', n);
    assert(tag.take(n) =~= lang);
    assert(lang.take(n) =~= lang);
}

/// Of the tags with a language the first one is taken, and one is found if there is any.
pub proof fn law_first_of_the_language(tags: Seq<Seq<char>>, lang: Seq<char>)
    ensures
        match with_language(tags, lang) {
            Some(t) => exists|i: int|
                0 <= i < tags.len() && #[trigger] tags[i] == t && language(t) == lang && forall|
                    k: int,
                |
                    0 <= k < i ==> language(#[trigger] tags[k]) != lang,
            None => forall|i: int| 0 <= i < tags.len() ==> language(#[trigger] tags[i]) != lang,
        },
    decreases tags.len(),
{
    if tags.len() > 0 {
        if language(tags[0]) == lang {
            assert(tags[0] == with_language(tags, lang)->0);
        } else {
            let rest = tags.drop_first();
            law_first_of_the_language(rest, lang);
            match with_language(rest, lang) {
                Some(t) => {
                    let i = choose|i: int|
                        0 <= i < rest.len() && #[trigger] rest[i] == t && language(t) == lang
                            && forall|k: int| 0 <= k < i ==> language(#[trigger] rest[k]) != lang;
                    assert(tags[i + 1] == t);
                    assert forall|k: int| 0 <= k < i + 1 implies language(#[trigger] tags[k])
                        != lang by {
                        if k > 0 {
                            assert(rest[k - 1] == tags[k]);
                        }
                    }
                },
                None => {
                    assert forall|i: int| 0 <= i < tags.len() implies language(#[trigger] tags[i])
                        != lang by {
                        if i > 0 {
                            assert(rest[i - 1] == tags[i]);
                        }
                    }
                },
            }
        }
    }
}

/// Which locale a tag asks for: the bundled one of its form, or else the first bundled one of its
/// language, or else none.
pub proof fn law_matching(tag: Seq<char>, bundled: Seq<Seq<char>>)
    ensures
        bundled.contains(normalized(tag)) ==> matching(tag, bundled) == Some(normalized(tag)),
        matching(tag, bundled) matches Some(t) ==> bundled.contains(t) && language(t) == language(
            normalized(tag),
        ),
        matching(tag, bundled) is None ==> forall|i: int|
            0 <= i < bundled.len() ==> language(#[trigger] bundled[i]) != language(
                normalized(tag),
            ),
{
    lemma_with_language(bundled, language(normalized(tag)));
    law_first_of_the_language(bundled, language(normalized(tag)));
}

/// The user's wish comes before the system's, and the system's before English; a wish that no
/// bundled locale meets counts for nothing.
pub proof fn law_order_of_wishes(explicit: Seq<char>, system: Seq<char>, bundled: Seq<Seq<char>>)
    ensures
        matching(explicit, bundled) matches Some(t) ==> resolved(
            Some(explicit),
            Some(system),
            bundled,
        ) == t && resolved(Some(explicit), None, bundled) == t,
        matching(explicit, bundled) is None ==> resolved(Some(explicit), Some(system), bundled)
            == resolved(None, Some(system), bundled),
        matching(system, bundled) matches Some(t) ==> resolved(None, Some(system), bundled) == t,
        matching(system, bundled) is None ==> resolved(None, Some(system), bundled) == "en"@,
        resolved(None, None, bundled) == "en"@,
{
}

/// An argument that asks for a language.
pub open spec fn asks_for_language(arg: Seq<char>) -> bool {
    arg == "--lang"@ || arg == "-l"@ || "--lang="@.is_prefix_of(arg)
}

/// The first argument that asks for a language decides, whatever follows it: `--lang` and `-l` ask
/// for the next argument, `--lang=` for what follows the sign.
pub proof fn law_first_language_argument(args: Seq<Seq<char>>, i: int, value: Seq<char>)
    requires
        0 <= i <= args.len(),
        forall|k: int| 0 <= k < i ==> !asks_for_language(#[trigger] args[k]),
    ensures
        i == args.len() ==> lang_argument(args) is None,
        i < args.len() && (args[i] == "--lang"@ || args[i] == "-l"@) ==> lang_argument(args) == (
        if i + 1 < args.len() {
            Some(args[i + 1])
        } else {
            None
        }),
        i < args.len() && args[i] == "--lang="@ + value ==> lang_argument(args) == Some(value),
    decreases i,
{
    reveal_strlit("--lang");
    reveal_strlit("-l");
    reveal_strlit("--lang=");
    if i > 0 {
        assert(!asks_for_language(args[0]));
        let rest = args.drop_first();
        assert forall|k: int| 0 <= k < i - 1 implies !asks_for_language(#[trigger] rest[k]) by {
            assert(rest[k] == args[k + 1]);
        }
        law_first_language_argument(rest, i - 1, value);
    } else if args.len() > 0 && args[0] == "--lang="@ + value {
        assert(args[0].len() >= 7);
        assert("--lang="@.is_prefix_of(args[0])) by {
            assert(args[0].take(7) =~= "--lang="@);
        }
        assert(args[0].skip(7) =~= value);
    }
}

/// A query may take as many seconds as the user says in decimal, and six where the user says nothing
/// or what is no number.
pub proof fn law_timeout(n: nat, s: Seq<char>)
    ensures
        seconds_for(None) == 6,
        n <= u64::MAX ==> seconds_for(Some(text::decimal(n))) == n,
        text::number_of(s, 0xffff_ffff_ffff_ffff) is None ==> seconds_for(Some(s)) == 6,
{
    text::law_decimal_round_trip(n);
}

} // verus!
