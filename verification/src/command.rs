//! Reading process command lines: hiding secrets before a command is shown, and finding the
//! browser profile directory that marks an automation session.
use vstd::prelude::*;
use crate::text::{
    chars_of, contains, find, has_prefix, join_with_spaces, join_words, lemma_find, lowercase,
    split_words, starts_with, str_contains, str_to_lowercase, string_of, trim_char, trim_matching,
    words, find_chars, occurs_at, all_ascii,
};
use crate::laws::law_redaction_keeps_words;

verus! {

/// The executable name of the `agent-browser` driver.
pub const AGENT: &'static str = "agent-browser-linux-x64";

/// The start of the profile directories that `agent-browser` gives the browsers it launches.
pub const AGENT_PROFILE: &'static str = "/tmp/agent-browser-chrome-";

/// The browser flag that names the profile directory.
pub const USER_DATA_DIR_FLAG: &'static str = "--user-data-dir=";

/// What one word of a command line becomes once redacted, given the word's lowercase form:
/// URLs are replaced by `[url]`, arguments that carry a token, key or password by
/// `[redacted-argument]`, and every other word is kept.
pub open spec fn redacted_word(w: Seq<char>, lowered: Seq<char>) -> Seq<char> {
    if starts_with(w, "http://"@) || starts_with(w, "https://"@) {
        "[url]"@
    } else if contains(lowered, "token="@) || contains(lowered, "key="@) || contains(
        lowered,
        "password="@,
    ) {
        "[redacted-argument]"@
    } else {
        w
    }
}

/// Whether redaction replaces the word by a placeholder, given the word's lowercase form.
pub open spec fn replaced(w: Seq<char>, lowered: Seq<char>) -> bool {
    ||| starts_with(w, "http://"@)
    ||| starts_with(w, "https://"@)
    ||| contains(lowered, "token="@)
    ||| contains(lowered, "key="@)
    ||| contains(lowered, "password="@)
}

/// What one word of a command line becomes once redacted.
pub open spec fn redacted_word_of(w: Seq<char>) -> Seq<char> {
    redacted_word(w, lowercase(w))
}

/// A command line with every word redacted, the words separated by single spaces.
pub open spec fn redacted(s: Seq<char>) -> Seq<char> {
    join_words(words(s).map_values(|w: Seq<char>| redacted_word_of(w)))
}

/// The word carries a secret: its lowercase form holds `token=`, `key=` or `password=`.
pub open spec fn carries_secret(w: Seq<char>) -> bool {
    let l = lowercase(w);
    contains(l, "token="@) || contains(l, "key="@) || contains(l, "password="@)
}

/// The word shows neither a URL nor a secret.
pub open spec fn shows_nothing_hidden(w: Seq<char>) -> bool {
    !starts_with(w, "http://"@) && !starts_with(w, "https://"@) && !carries_secret(w)
}

proof fn lemma_index_below_19(i: int)
    requires
        0 <= i < 19,
    ensures
        i == 0 || i == 1 || i == 2 || i == 3 || i == 4 || i == 5 || i == 6 || i == 7 || i == 8
            || i == 9 || i == 10 || i == 11 || i == 12 || i == 13 || i == 14 || i == 15 || i == 16
            || i == 17 || i == 18,
{
}

/// Where `p` occurs in `s`, its first two characters stand there.
proof fn lemma_occurs_starts(s: Seq<char>, p: Seq<char>, i: int)
    requires
        occurs_at(s, p, i),
        p.len() >= 2,
    ensures
        0 <= i < s.len() - 1,
        s[i] == p[0],
        s[i + 1] == p[1],
{
    assert(s.subrange(i, i + p.len())[0] == s[i]);
    assert(s.subrange(i, i + p.len())[1] == s[i + 1]);
}

/// `[url]` shows neither a URL nor a secret, once its lowercase form is known to be itself.
proof fn lemma_url_shows_nothing()
    requires
        lowercase("[url]"@) == "[url]"@,
    ensures
        shows_nothing_hidden("[url]"@),
{
    reveal_strlit("[url]");
    reveal_strlit("http://");
    reveal_strlit("https://");
    reveal_strlit("token=");
    reveal_strlit("key=");
    reveal_strlit("password=");
    let u = "[url]"@;
    assert forall|i: int| !occurs_at(u, "key="@, i) by {
        if occurs_at(u, "key="@, i) {
            lemma_occurs_starts(u, "key="@, i);
        }
    }
}

/// `[redacted-argument]` shows neither a URL nor a secret, once its lowercase form is known to
/// be itself.
proof fn lemma_argument_shows_nothing()
    requires
        lowercase("[redacted-argument]"@) == "[redacted-argument]"@,
    ensures
        shows_nothing_hidden("[redacted-argument]"@),
{
    reveal_strlit("[redacted-argument]");
    reveal_strlit("http://");
    reveal_strlit("https://");
    reveal_strlit("token=");
    reveal_strlit("key=");
    reveal_strlit("password=");
    let a = "[redacted-argument]"@;
    assert(a.subrange(0, 7)[0] == a[0]);
    assert(a.subrange(0, 8)[0] == a[0]);
    assert forall|i: int|
        !occurs_at(a, "token="@, i) && !occurs_at(a, "key="@, i) && !occurs_at(a, "password="@, i)
    by {
        if occurs_at(a, "token="@, i) {
            lemma_occurs_starts(a, "token="@, i);
            lemma_index_below_19(i);
        }
        if occurs_at(a, "key="@, i) {
            lemma_occurs_starts(a, "key="@, i);
            lemma_index_below_19(i);
        }
        if occurs_at(a, "password="@, i) {
            lemma_occurs_starts(a, "password="@, i);
            lemma_index_below_19(i);
        }
    }
}

/// The placeholder that replaced a word is known to be its own lowercase form.
pub open spec fn placeholder_known(w: Seq<char>) -> bool {
    replaced(w, lowercase(w)) ==> lowercase(redacted_word_of(w)) == redacted_word_of(w)
}

/// A redacted word shows no URL and no secret, and redacting it again keeps it.
proof fn lemma_redacted_word_settled(w: Seq<char>)
    requires
        placeholder_known(w),
    ensures
        shows_nothing_hidden(redacted_word_of(w)),
        redacted_word_of(redacted_word_of(w)) == redacted_word_of(w),
{
    if starts_with(w, "http://"@) || starts_with(w, "https://"@) {
        lemma_url_shows_nothing();
    } else if replaced(w, lowercase(w)) {
        lemma_argument_shows_nothing();
    }
}

/// When the placeholders that replaced words are known to be their own lowercase forms, the
/// text shown for a command is settled: none of its words shows a URL or a secret, and
/// redacting it again gives it back.
proof fn lemma_redaction_settled(s: Seq<char>)
    requires
        forall|i: int| 0 <= i < words(s).len() ==> placeholder_known(#[trigger] words(s)[i]),
    ensures
        redacted(redacted(s)) == redacted(s),
        forall|i: int| 0 <= i < words(redacted(s)).len() ==> shows_nothing_hidden(
            #[trigger] words(redacted(s))[i],
        ),
{
    law_redaction_keeps_words(s);
    let ws = words(s);
    let rs = ws.map_values(|w: Seq<char>| redacted_word_of(w));
    assert(words(redacted(s)) == rs);
    assert forall|i: int| 0 <= i < rs.len() implies shows_nothing_hidden(#[trigger] rs[i]) by {
        lemma_redacted_word_settled(ws[i]);
    }
    let rrs = rs.map_values(|w: Seq<char>| redacted_word_of(w));
    assert forall|i: int| 0 <= i < rrs.len() implies #[trigger] rrs[i] == rs[i] by {
        lemma_redacted_word_settled(ws[i]);
    }
    assert(rrs =~= rs);
}

/// Redacts one word of a command line, given the word and its lowercase form. A placeholder is
/// built by lowercasing its text, so that its lowercase form is known to be itself.
pub fn redact_word(word: &str, lowered: &str) -> (r: String)
    ensures
        r@ == redacted_word(word@, lowered@),
        replaced(word@, lowered@) ==> lowercase(r@) == r@,
{
    let w = chars_of(word);
    if has_prefix(&w, &chars_of("http://")) || has_prefix(&w, &chars_of("https://")) {
        let p = str_to_lowercase("[url]");
        proof {
            reveal_strlit("[url]");
            assert(all_ascii("[url]"@));
            assert(p@ =~= "[url]"@);
        }
        return p;
    }
    if str_contains(lowered, "token=") || str_contains(lowered, "key=") || str_contains(
        lowered,
        "password=",
    ) {
        let p = str_to_lowercase("[redacted-argument]");
        proof {
            reveal_strlit("[redacted-argument]");
            assert(all_ascii("[redacted-argument]"@));
            assert(p@ =~= "[redacted-argument]"@);
        }
        p
    } else {
        String::from_str(word)
    }
}

/// Redacts a command line for display: URLs and token, key or password arguments are hidden,
/// and the words are joined by single spaces.
pub fn redact(s: &str) -> (r: String)
    ensures
        r@ == redacted(s@),
        redacted(r@) == r@,
        forall|i: int| 0 <= i < words(r@).len() ==> shows_nothing_hidden(#[trigger] words(r@)[i]),
{
    let ws = split_words(s);
    let mut out: Vec<String> = Vec::new();
    let mut i: usize = 0;
    while i < ws.len()
        invariant
            i <= ws.len(),
            ws.deep_view() == words(s@),
            out.deep_view() == ws.deep_view().take(i as int).map_values(|w: Seq<char>| redacted_word_of(w)),
            forall|j: int| 0 <= j < i ==> placeholder_known(#[trigger] ws.deep_view()[j]),
        decreases ws.len() - i,
    {
        let lowered = str_to_lowercase(ws[i].as_str());
        let w = redact_word(ws[i].as_str(), lowered.as_str());
        assert(ws.deep_view()[i as int] == ws@[i as int]@);
        assert(w@ == redacted_word_of(ws.deep_view()[i as int]));
        let ghost before = out.deep_view();
        out.push(w);
        assert(out.deep_view() =~= before.push(w@));
        i = i + 1;
        assert(ws.deep_view().take(i as int) =~= ws.deep_view().take(i - 1).push(
            ws.deep_view()[i - 1],
        ));
        assert(out.deep_view() =~= ws.deep_view().take(i as int).map_values(|w: Seq<char>| redacted_word_of(w)));
    }
    assert(ws.deep_view().take(ws.len() as int) =~= ws.deep_view());
    proof {
        lemma_redaction_settled(s@);
    }
    join_with_spaces(&out)
}

/// Whether a profile directory marks an automation session, given the directory and its
/// lowercase form: an `agent-browser` profile, or one whose name mentions Playwright.
pub open spec fn marked_profile(v: Seq<char>, lowered: Seq<char>) -> bool {
    contains(v, AGENT_PROFILE@) || contains(lowered, "playwright"@)
}

/// The profile directory named on a command line, if it marks an automation session: the
/// first word after the first `--user-data-dir=`, stripped of surrounding double quotes.
pub open spec fn profile_of_command(s: Seq<char>) -> Option<Seq<char>> {
    match find(s, USER_DATA_DIR_FLAG@) {
        None => None,
        Some(i) => {
            let ws = words(s.skip(i + USER_DATA_DIR_FLAG@.len()));
            if ws.len() == 0 {
                None
            } else {
                let v = trim_char(ws[0], '"');
                if marked_profile(v, lowercase(v)) {
                    Some(v)
                } else {
                    None
                }
            }
        },
    }
}

/// Whether a profile directory marks an automation session, given the directory and its
/// lowercase form.
pub fn is_marked_profile(value: &str, lowered: &str) -> (b: bool)
    ensures
        b == marked_profile(value@, lowered@),
{
    str_contains(value, AGENT_PROFILE) || str_contains(lowered, "playwright")
}

/// The automation profile directory named on a command line by `--user-data-dir=`, if any.
pub fn profile(s: &str) -> (r: Option<String>)
    ensures
        match r {
            Some(v) => profile_of_command(s@) == Some(v@),
            None => profile_of_command(s@) is None,
        },
{
    let chars = chars_of(s);
    let flag = chars_of(USER_DATA_DIR_FLAG);
    let at = match find_chars(&chars, &flag) {
        None => return None,
        Some(i) => i,
    };
    proof {
        lemma_find(chars@, flag@);
        assert(occurs_at(chars@, flag@, at as int));
    }
    assert(at + flag.len() <= chars.len());
    let start = at + flag.len();
    let mut rest: Vec<char> = Vec::new();
    let mut k: usize = start;
    while k < chars.len()
        invariant
            start <= k <= chars.len(),
            rest@ == chars@.subrange(start as int, k as int),
        decreases chars.len() - k,
    {
        rest.push(chars[k]);
        k = k + 1;
        assert(rest@ =~= chars@.subrange(start as int, k as int));
    }
    assert(rest@ =~= s@.skip(start as int));
    let ws = split_words(string_of(&rest).as_str());
    if ws.len() == 0 {
        return None;
    }
    assert(ws.deep_view()[0] == ws@[0]@);
    let v = string_of(&trim_matching(&chars_of(ws[0].as_str()), '"'));
    let lowered = str_to_lowercase(v.as_str());
    if is_marked_profile(v.as_str(), lowered.as_str()) {
        Some(v)
    } else {
        None
    }
}

} // verus!
