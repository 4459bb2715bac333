//! Recognising a repository: where its git directory is, which remotes its
//! `config` names, and which platform each remote URL belongs to.
use vstd::prelude::*;

use crate::config::{
    join, join_path, remotes_view, HostKind, RemoteInfo, RemoteInfoView, RepoKind,
};
use crate::text::{
    char_pos, chars_of, ends_with, lemma_char_pos_range, eq_str, find_char, has_prefix, has_suffix, last_char_pos,
    lines, lines_of, rfind_char, slice, starts_with, string_of, strip_all, strip_all_chars,
    strip_all_end, strip_all_end_chars, strip_all_start, strip_all_start_chars, trim, trim_chars,
};

verus! {

broadcast use vstd::string::group_string_axioms;

// ---------------------------------------------------------------------------
// Remote URLs
// ---------------------------------------------------------------------------

/// Whether `c` ends the authority part of a URL.
pub open spec fn is_url_sep(c: char) -> bool {
    c == '/' || c == '?' || c == '#'
}

/// Index of the first `/`, `?` or `#` in `s`, or `s.len()`.
pub open spec fn url_sep_pos(s: Seq<char>) -> int
    decreases s.len(),
{
    if s.len() == 0 {
        0
    } else if is_url_sep(s[0]) {
        0
    } else {
        url_sep_pos(s.drop_first()) + 1
    }
}

proof fn lemma_url_sep_pos(s: Seq<char>, i: int)
    requires
        0 <= i <= s.len(),
        i < s.len() ==> is_url_sep(s[i]),
        forall|j: int| 0 <= j < i ==> !is_url_sep(s[j]),
    ensures
        url_sep_pos(s) == i,
    decreases s.len(),
{
    if s.len() > 0 && i != 0 {
        lemma_url_sep_pos(s.drop_first(), i - 1);
    }
}

/// `s` up to its first `c` (`s.split(c).next()`).
pub open spec fn before_char(s: Seq<char>, c: char) -> Seq<char> {
    if char_pos(s, c) < 0 {
        s
    } else {
        s.take(char_pos(s, c))
    }
}

/// `s` after its last `c`, or all of `s` when there is none.
pub open spec fn after_last_char(s: Seq<char>, c: char) -> Seq<char> {
    if last_char_pos(s, c) < 0 {
        s
    } else {
        s.skip(last_char_pos(s, c) + 1)
    }
}

/// The host named by the part of a URL that follows its scheme: up to the
/// first `/`, `?` or `#`, after the last `@`, before the first `:`.
pub open spec fn authority_host(rest: Seq<char>) -> Seq<char> {
    before_char(after_last_char(rest.take(url_sep_pos(rest)), '@'), ':')
}

/// The host of a remote URL: for `https://`, `http://`, `ssh://` and
/// `git://` URLs the host of the authority (possibly empty); for scp-like
/// `user@host:path` the non-empty text between the first `@` and the
/// following `:`; otherwise none.
pub open spec fn url_host_of(u: Seq<char>) -> Option<Seq<char>> {
    if has_prefix(u, "https://"@) {
        Some(authority_host(u.skip(8)))
    } else if has_prefix(u, "http://"@) {
        Some(authority_host(u.skip(7)))
    } else if has_prefix(u, "ssh://"@) {
        Some(authority_host(u.skip(6)))
    } else if has_prefix(u, "git://"@) {
        Some(authority_host(u.skip(6)))
    } else if char_pos(u, '@') < 0 {
        None
    } else {
        let h = before_char(u.skip(char_pos(u, '@') + 1), ':');
        if h.len() > 0 {
            Some(h)
        } else {
            None
        }
    }
}

/// The platform a host belongs to: the host itself or one of its subdomains.
pub open spec fn host_kind_of(host: Option<Seq<char>>) -> HostKind {
    match host {
        Some(h) => if h == "github.com"@ || has_suffix(h, ".github.com"@) {
            HostKind::Github
        } else if h == "gitee.com"@ || has_suffix(h, ".gitee.com"@) {
            HostKind::Gitee
        } else {
            HostKind::Other
        },
        None => HostKind::Other,
    }
}

/// Position just past the host's start and at its end within `v[from..to]`:
/// after the last `@` of that range, before the first `:` after it.
fn host_bounds(v: &Vec<char>, from: usize, to: usize) -> (r: (usize, usize))
    requires
        from <= to <= v.len(),
    ensures
        from <= r.0 <= r.1 <= to,
        v@.subrange(r.0 as int, r.1 as int) == before_char(
            after_last_char(v@.subrange(from as int, to as int), '@'),
            ':',
        ),
{
    let auth = slice(v, from, to);
    let start = match rfind_char(&auth, '@') {
        Some(a) => from + a + 1,
        None => from,
    };
    proof {
        if last_char_pos(auth@, '@') < 0 {
            assert(v@.subrange(start as int, to as int) =~= after_last_char(auth@, '@'));
        } else {
            assert(v@.subrange(start as int, to as int) =~= after_last_char(auth@, '@'));
        }
    }
    let h = slice(v, start, to);
    let end = match find_char(&h, ':') {
        Some(c) => start + c,
        None => to,
    };
    proof {
        assert(v@.subrange(start as int, end as int) =~= before_char(h@, ':'));
    }
    (start, end)
}

/// Position of the first `/`, `?` or `#` at or after `from`, or `v.len()`.
fn find_url_sep(v: &Vec<char>, from: usize) -> (r: usize)
    requires
        from <= v.len(),
    ensures
        from <= r <= v.len(),
        r - from == url_sep_pos(v@.skip(from as int)),
{
    let mut i: usize = from;
    while i < v.len()
        invariant
            from <= i <= v.len(),
            forall|j: int| from <= j < i ==> !is_url_sep(v@[j]),
        decreases v.len() - i,
    {
        let c = v[i];
        if c == '/' || c == '?' || c == '#' {
            proof {
                lemma_url_sep_pos(v@.skip(from as int), i - from);
            }
            return i;
        }
        i = i + 1;
    }
    proof {
        lemma_url_sep_pos(v@.skip(from as int), i - from);
    }
    i
}

/// The host of a remote URL (see `url_host_of`), as part of `url`.
pub fn url_host(url: &str) -> (r: Option<&str>)
    ensures
        match r {
            Some(h) => url_host_of(url@) == Some(h@),
            None => url_host_of(url@) is None,
        },
{
    let v = chars_of(url);
    let https = chars_of("https://");
    let http = chars_of("http://");
    let ssh = chars_of("ssh://");
    let git = chars_of("git://");
    proof {
        reveal_strlit("https://");
        reveal_strlit("http://");
        reveal_strlit("ssh://");
        reveal_strlit("git://");
    }
    let off: usize = if starts_with(&v, &https) {
        8
    } else if starts_with(&v, &http) {
        7
    } else if starts_with(&v, &ssh) {
        6
    } else if starts_with(&v, &git) {
        6
    } else {
        0
    };
    if off > 0 {
        let e = find_url_sep(&v, off);
        let (hs, he) = host_bounds(&v, off, e);
        proof {
            assert(v@.skip(off as int).take(url_sep_pos(v@.skip(off as int))) =~= v@.subrange(
                off as int,
                e as int,
            ));
        }
        return Some(url.substring_char(hs, he));
    }
    match find_char(&v, '@') {
        None => None,
        Some(a) => {
            let hs = a + 1;
            let hp = slice(&v, hs, v.len());
            let he = match find_char(&hp, ':') {
                Some(c) => hs + c,
                None => v.len(),
            };
            proof {
                assert(hp@ =~= v@.skip(hs as int));
                assert(v@.subrange(hs as int, he as int) =~= before_char(hp@, ':'));
            }
            if he > hs {
                Some(url.substring_char(hs, he))
            } else {
                None
            }
        },
    }
}

/// The platform a remote URL belongs to.
pub fn classify_url(url: &str) -> (k: HostKind)
    ensures
        k == host_kind_of(url_host_of(url@)),
{
    match url_host(url) {
        Some(host) => {
            let h = chars_of(host);
            let gh_suffix = chars_of(".github.com");
            let ge_suffix = chars_of(".gitee.com");
            if eq_str(&h, "github.com") || ends_with(&h, &gh_suffix) {
                HostKind::Github
            } else if eq_str(&h, "gitee.com") || ends_with(&h, &ge_suffix) {
                HostKind::Gitee
            } else {
                HostKind::Other
            }
        },
        None => HostKind::Other,
    }
}

// ---------------------------------------------------------------------------
// Repository kind
// ---------------------------------------------------------------------------

/// Whether some remote is hosted on platform `k`.
pub open spec fn has_host(remotes: Seq<RemoteInfoView>, k: HostKind) -> bool {
    exists|i: int| 0 <= i < remotes.len() && #[trigger] remotes[i].host == k
}

/// Which platforms a repository's remotes reach.
pub open spec fn kind_of(remotes: Seq<RemoteInfoView>) -> RepoKind {
    match (has_host(remotes, HostKind::Github), has_host(remotes, HostKind::Gitee)) {
        (true, true) => RepoKind::Both,
        (true, false) => RepoKind::GithubOnly,
        (false, true) => RepoKind::GiteeOnly,
        (false, false) => RepoKind::Neither,
    }
}

fn any_host(remotes: &[RemoteInfo], k: HostKind) -> (b: bool)
    ensures
        b == has_host(remotes_view(remotes@), k),
{
    let mut i: usize = 0;
    while i < remotes.len()
        invariant
            i <= remotes.len(),
            forall|j: int| 0 <= j < i ==> remotes@[j].host != k,
        decreases remotes.len() - i,
    {
        if remotes[i].host == k {
            assert(remotes_view(remotes@)[i as int].host == k);
            return true;
        }
        i = i + 1;
    }
    assert forall|j: int| 0 <= j < remotes_view(remotes@).len() implies #[trigger] remotes_view(
        remotes@,
    )[j].host != k by {
        assert(remotes_view(remotes@)[j] == remotes@[j]@);
    }
    false
}

/// Which platforms the remotes reach.
pub fn kind_for(remotes: &[RemoteInfo]) -> (k: RepoKind)
    ensures
        k == kind_of(remotes_view(remotes@)),
{
    let has_github = any_host(remotes, HostKind::Github);
    let has_gitee = any_host(remotes, HostKind::Gitee);
    match (has_github, has_gitee) {
        (true, true) => RepoKind::Both,
        (true, false) => RepoKind::GithubOnly,
        (false, true) => RepoKind::GiteeOnly,
        (false, false) => RepoKind::Neither,
    }
}

// ---------------------------------------------------------------------------
// git config
// ---------------------------------------------------------------------------

/// The remote named by a section header line such as `[remote "origin"]`:
/// brackets stripped, the word `remote` required, quotes stripped; an empty
/// name gives none.
pub open spec fn section_remote_name(line: Seq<char>) -> Option<Seq<char>> {
    let rest = trim(strip_all_end(strip_all_start(line, '['), ']'));
    if !has_prefix(rest, "remote"@) {
        None
    } else {
        let name = strip_all(strip_all(trim(rest.skip(6)), '"'), '\'');
        if name.len() == 0 {
            None
        } else {
            Some(name)
        }
    }
}

/// The remote named by a section header line, if it names one.
pub fn parse_section_remote_name(line: &str) -> (r: Option<String>)
    ensures
        opt_string_view(r) == section_remote_name(line@),
{
    let v = chars_of(line);
    let a = strip_all_start_chars(&v, '[');
    let b = strip_all_end_chars(&a, ']');
    let rest = trim_chars(&b);
    let kw = chars_of("remote");
    proof {
        reveal_strlit("remote");
    }
    if !starts_with(&rest, &kw) {
        return None;
    }
    let after = slice(&rest, 6, rest.len());
    assert(after@ =~= rest@.skip(6));
    let t = trim_chars(&after);
    let q = strip_all_chars(&t, '"');
    let name = strip_all_chars(&q, '\'');
    if name.len() == 0 {
        None
    } else {
        Some(string_of(&name))
    }
}

/// The value of an optional string.
pub open spec fn opt_string_view(o: Option<String>) -> Option<Seq<char>> {
    match o {
        Some(s) => Some(s@),
        None => None,
    }
}

/// The remote found on one `key = value` line of a `[remote ...]` section:
/// only the key `url` counts; the value is trimmed.
pub open spec fn url_entry(name: Seq<char>, line: Seq<char>) -> Option<RemoteInfoView> {
    let eq = char_pos(line, '=');
    if eq < 0 {
        None
    } else if trim(line.take(eq)) != "url"@ {
        None
    } else {
        let url = trim(line.skip(eq + 1));
        Some(RemoteInfoView { name, url, host: host_kind_of(url_host_of(url)) })
    }
}

/// The remotes that the lines `ls` of a git config name, reading them in
/// order while `cur` is the remote section they stand in (none outside one).
/// Blank lines and `#`/`;` comments are skipped; a line starting with `[`
/// opens a new section.
pub open spec fn remotes_in_lines(ls: Seq<Seq<char>>, cur: Option<Seq<char>>) -> Seq<
    RemoteInfoView,
>
    decreases ls.len(),
{
    if ls.len() == 0 {
        seq![]
    } else {
        let line = trim(ls[0]);
        let rest = ls.drop_first();
        if line.len() == 0 || line[0] == '#' || line[0] == ';' {
            remotes_in_lines(rest, cur)
        } else if line[0] == '[' {
            remotes_in_lines(rest, section_remote_name(line))
        } else {
            match cur {
                None => remotes_in_lines(rest, cur),
                Some(name) => match url_entry(name, line) {
                    Some(r) => seq![r] + remotes_in_lines(rest, cur),
                    None => remotes_in_lines(rest, cur),
                },
            }
        }
    }
}

/// The remotes of a git config file's text: one per `url` line of each
/// `[remote "<name>"]` section, in order.
pub open spec fn remotes_of_config(raw: Seq<char>) -> Seq<RemoteInfoView> {
    remotes_in_lines(lines(raw), None)
}

/// `line` is a `url = <value>` line: the text before its first `=`, trimmed,
/// is exactly `url`, and `value` is the text after that `=`, trimmed.
pub open spec fn is_url_line(line: Seq<char>, value: Seq<char>) -> bool {
    exists|e: int|
        0 <= e < line.len() && #[trigger] line[e] == '=' && (forall|m: int| 0 <= m < e ==> line[m] != '=')
            && trim(line.take(e)) == "url"@ && value == trim(line.skip(e + 1))
}

/// One `key = value` line of a remote section adds a remote exactly when
/// its key is `url`, and then the one named by the section, with the value
/// as its URL: any other key (`pushurl`, `fetch`, ...) adds nothing.
pub proof fn lemma_url_entry_law(name: Seq<char>, line: Seq<char>)
    ensures
        url_entry(name, line) is Some <==> (exists|v: Seq<char>| is_url_line(line, v)),
        url_entry(name, line) matches Some(r) ==> r.name == name && is_url_line(line, r.url),
{
    lemma_char_pos_range(line, '=');
    let eq = char_pos(line, '=');
    if eq >= 0 && trim(line.take(eq)) == "url"@ {
        assert(is_url_line(line, trim(line.skip(eq + 1))));
    }
    if exists|v: Seq<char>| is_url_line(line, v) {
        let v = choose|v: Seq<char>| is_url_line(line, v);
        let e = choose|e: int|
            0 <= e < line.len() && #[trigger] line[e] == '=' && (forall|m: int| 0 <= m < e ==> line[m] != '=')
                && trim(line.take(e)) == "url"@ && v == trim(line.skip(e + 1));
        if eq < e {
            assert(line[eq] == '=');
        }
        assert(eq >= 0);
        if e < eq {
            assert(line[e] != '=');
        }
        assert(e == eq);
    }
}

/// Every remote read from config lines comes from one of them whose key,
/// trimmed, is exactly `url`, and carries that line's value as its URL; its
/// name is the one a section header line names (or the section the lines
/// start in).
pub proof fn lemma_remotes_from_url_lines(ls: Seq<Seq<char>>, cur: Option<Seq<char>>)
    ensures
        forall|i: int|
            #![trigger remotes_in_lines(ls, cur)[i]]
            0 <= i < remotes_in_lines(ls, cur).len() ==> exists|j: int|
                0 <= j < ls.len() && is_url_line(trim(#[trigger] ls[j]), remotes_in_lines(ls, cur)[i].url),
        forall|i: int|
            #![trigger remotes_in_lines(ls, cur)[i]]
            0 <= i < remotes_in_lines(ls, cur).len() ==> cur == Some(remotes_in_lines(ls, cur)[i].name)
                || exists|j: int|
                0 <= j < ls.len() && trim(#[trigger] ls[j]).len() > 0 && trim(ls[j])[0] == '['
                    && section_remote_name(trim(ls[j])) == Some(remotes_in_lines(ls, cur)[i].name),
    decreases ls.len(),
{
    if ls.len() > 0 {
        let line = trim(ls[0]);
        let rest = ls.drop_first();
        let next = if line.len() == 0 || line[0] == '#' || line[0] == ';' {
            cur
        } else if line[0] == '[' {
            section_remote_name(line)
        } else {
            cur
        };
        lemma_remotes_from_url_lines(rest, next);
        let out = remotes_in_lines(ls, cur);
        let sub = remotes_in_lines(rest, next);
        assert forall|i: int| #![trigger out[i]] 0 <= i < out.len() implies exists|j: int|
            0 <= j < ls.len() && is_url_line(trim(#[trigger] ls[j]), out[i].url) by {
            if out.len() == sub.len() + 1 && !(line.len() == 0 || line[0] == '#' || line[0] == ';')
                && line[0] != '[' && cur is Some && url_entry(cur->0, line) is Some {
                lemma_url_entry_law(cur->0, line);
                if i == 0 {
                    assert(out[0] == url_entry(cur->0, line)->0);
                    assert(ls[0] == ls[0]);
                } else {
                    assert(out[i] == sub[i - 1]);
                    let j = choose|j: int| 0 <= j < rest.len() && is_url_line(trim(#[trigger] rest[j]), sub[i - 1].url);
                    assert(rest[j] == ls[j + 1]);
                }
            } else {
                assert(out == sub);
                let j = choose|j: int| 0 <= j < rest.len() && is_url_line(trim(#[trigger] rest[j]), sub[i].url);
                assert(rest[j] == ls[j + 1]);
            }
        }
        assert forall|i: int| #![trigger out[i]] 0 <= i < out.len() implies cur == Some(out[i].name)
            || exists|j: int|
            0 <= j < ls.len() && trim(#[trigger] ls[j]).len() > 0 && trim(ls[j])[0] == '['
                && section_remote_name(trim(ls[j])) == Some(out[i].name) by {
            let sub_i = if out.len() == sub.len() + 1 && !(line.len() == 0 || line[0] == '#' || line[0] == ';')
                && line[0] != '[' && cur is Some && url_entry(cur->0, line) is Some {
                i - 1
            } else {
                i
            };
            if sub_i < 0 {
                assert(out[0] == url_entry(cur->0, line)->0);
            } else {
                if out.len() == sub.len() + 1 && !(line.len() == 0 || line[0] == '#' || line[0] == ';')
                    && line[0] != '[' && cur is Some && url_entry(cur->0, line) is Some {
                    assert(out[i] == sub[i - 1]);
                } else {
                    assert(out == sub);
                }
                assert(out[i] == sub[sub_i]);
                if next == Some(sub[sub_i].name) {
                    if line.len() > 0 && line[0] == '[' {
                        assert(ls[0] == ls[0]);
                    }
                } else {
                    let j = choose|j: int|
                        0 <= j < rest.len() && trim(#[trigger] rest[j]).len() > 0 && trim(rest[j])[0] == '['
                            && section_remote_name(trim(rest[j])) == Some(sub[sub_i].name);
                    assert(rest[j] == ls[j + 1]);
                }
            }
        }
    }
}

/// Every remote read from a git config comes from a line of it whose key,
/// trimmed, is exactly `url`, and is named by a `[remote "<name>"]` header
/// of the config.
pub proof fn lemma_config_remotes_are_url_lines(raw: Seq<char>)
    ensures
        forall|i: int|
            #![trigger remotes_of_config(raw)[i]]
            0 <= i < remotes_of_config(raw).len() ==> exists|j: int|
                0 <= j < lines(raw).len() && trim(#[trigger] lines(raw)[j]).len() > 0 && trim(lines(raw)[j])[0]
                    == '[' && section_remote_name(trim(lines(raw)[j])) == Some(remotes_of_config(raw)[i].name),
        forall|i: int|
            #![trigger remotes_of_config(raw)[i]]
            0 <= i < remotes_of_config(raw).len() ==> exists|j: int|
                0 <= j < lines(raw).len() && is_url_line(trim(#[trigger] lines(raw)[j]), remotes_of_config(raw)[i].url),
{
    lemma_remotes_from_url_lines(lines(raw), None);
}

/// The remotes named by the text of a git config file.
pub fn parse_git_config(raw: &str) -> (r: Vec<RemoteInfo>)
    ensures
        remotes_view(r@) == remotes_of_config(raw@),
{
    let v = chars_of(raw);
    let ls = lines_of(&v);
    let ghost lv = ls@.map_values(|l: Vec<char>| l@);
    let mut out: Vec<RemoteInfo> = Vec::new();
    let mut cur: Option<String> = None;
    let mut i: usize = 0;
    assert(lv.skip(0) =~= lv);
    assert(remotes_view(out@) + remotes_in_lines(lv, None) =~= remotes_in_lines(lv, None));
    while i < ls.len()
        invariant
            i <= ls.len(),
            lv == ls@.map_values(|l: Vec<char>| l@),
            lv == lines(raw@),
            remotes_view(out@) + remotes_in_lines(lv.skip(i as int), opt_string_view(cur))
                == remotes_in_lines(lv, None),
        decreases ls.len() - i,
    {
        let line = trim_chars(&ls[i]);
        let ghost rest = lv.skip(i + 1);
        proof {
            assert(lv.skip(i as int).drop_first() =~= rest);
            assert(lv.skip(i as int)[0] == ls@[i as int]@);
        }
        if line.len() == 0 || line[0] == '#' || line[0] == ';' {
        } else if line[0] == '[' {
            let text = string_of(&line);
            cur = parse_section_remote_name(text.as_str());
        } else {
            match &cur {
                None => {},
                Some(name) => {
                    match find_char(&line, '=') {
                        None => {},
                        Some(eq) => {
                            let key = slice(&line, 0, eq);
                            let key = trim_chars(&key);
                            proof {
                                assert(line@.take(eq as int) =~= line@.subrange(0, eq as int));
                                reveal_strlit("url");
                            }
                            if eq_str(&key, "url") {
                                let value = slice(&line, eq + 1, line.len());
                                let url = trim_chars(&value);
                                let url_s = string_of(&url);
                                let host = classify_url(url_s.as_str());
                                let ghost before = remotes_view(out@);
                                out.push(RemoteInfo { name: name.clone(), url: url_s, host });
                                proof {
                                    assert(line@.skip(eq + 1) =~= value@);
                                    let r = url_entry(name@, line@).unwrap();
                                    assert(remotes_view(out@) =~= before.push(r));
                                    assert(before.push(r) + remotes_in_lines(
                                        rest,
                                        opt_string_view(cur),
                                    ) =~= before + (seq![r] + remotes_in_lines(
                                        rest,
                                        opt_string_view(cur),
                                    )));
                                }
                            }
                        },
                    }
                },
            }
        }
        i = i + 1;
    }
    proof {
        assert(lv.skip(i as int) =~= Seq::<Seq<char>>::empty());
        assert(remotes_view(out@) + Seq::<RemoteInfoView>::empty() =~= remotes_view(out@));
    }
    out
}

/// What a repository root holds under the name `.git`.
pub enum DotGit {
    /// A directory: the git directory itself.
    Dir,
    /// A file (a worktree): its text.
    File(String),
    /// Nothing readable.
    Absent,
}

/// The git directory named by a worktree's `.git` file: the text after
/// `gitdir:`, trimmed, taken relative to the repository root.
pub open spec fn gitdir_of_file(root: Seq<char>, content: Seq<char>) -> Option<Seq<char>> {
    let t = trim(content);
    if has_prefix(t, "gitdir:"@) {
        Some(join_path(root, trim(t.skip(7))))
    } else {
        None
    }
}

/// The git directory of the repository at `root`, given what its `.git`
/// entry is: `<root>/.git` for a directory, the target of a `gitdir:` file,
/// otherwise none.
pub open spec fn gitdir_of(root: Seq<char>, dot_git: DotGit) -> Option<Seq<char>> {
    match dot_git {
        DotGit::Dir => Some(join_path(root, ".git"@)),
        DotGit::File(c) => gitdir_of_file(root, c@),
        DotGit::Absent => None,
    }
}

/// The git directory of the repository at `repo_root`, given what its
/// `.git` entry is.
pub fn gitdir_for(repo_root: &str, dot_git: &DotGit) -> (r: Option<String>)
    ensures
        opt_string_view(r) == gitdir_of(repo_root@, *dot_git),
{
    match dot_git {
        DotGit::Dir => Some(join(repo_root, ".git")),
        DotGit::File(content) => {
            let v = chars_of(content.as_str());
            let t = trim_chars(&v);
            let kw = chars_of("gitdir:");
            proof {
                reveal_strlit("gitdir:");
            }
            if !starts_with(&t, &kw) {
                return None;
            }
            let after = slice(&t, 7, t.len());
            assert(after@ =~= t@.skip(7));
            let target = trim_chars(&after);
            let target_s = string_of(&target);
            Some(join(repo_root, target_s.as_str()))
        },
        DotGit::Absent => None,
    }
}

/// The `config` file of the repository at `root`: in its git directory,
/// none without one.
pub open spec fn config_file_of(root: Seq<char>, dot_git: DotGit) -> Option<Seq<char>> {
    match gitdir_of(root, dot_git) {
        Some(g) => Some(join_path(g, "config"@)),
        None => None,
    }
}

/// The file whose text lists the remotes of the repository at `repo_root`.
pub fn config_file_for(repo_root: &str, dot_git: &DotGit) -> (r: Option<String>)
    ensures
        opt_string_view(r) == config_file_of(repo_root@, *dot_git),
{
    match gitdir_for(repo_root, dot_git) {
        Some(g) => Some(join(g.as_str(), "config")),
        None => None,
    }
}

/// The remotes of the repository at `root` whose `.git` entry is `dot_git`,
/// where `text` is what reading `config_file_of(root, dot_git)` gave: those
/// that text lists; none when there is no git directory (no `.git`, or a
/// `.git` file without `gitdir:`) or the file could not be read.
pub open spec fn repo_remotes(root: Seq<char>, dot_git: DotGit, text: Option<Seq<char>>) -> Seq<
    RemoteInfoView,
> {
    match config_file_of(root, dot_git) {
        Some(_) => match text {
            Some(t) => remotes_of_config(t),
            None => seq![],
        },
        None => seq![],
    }
}

/// The remotes of the repository at `repo_root`, given what its `.git`
/// entry is and what reading its `config` file gave.
pub fn inspect_with(repo_root: &str, dot_git: &DotGit, config_text: Option<&str>) -> (r: Vec<RemoteInfo>)
    ensures
        remotes_view(r@) == repo_remotes(repo_root@, *dot_git, match config_text {
            Some(t) => Some(t@),
            None => None,
        }),
{
    match config_file_for(repo_root, dot_git) {
        Some(_) => inspect_repo(config_text),
        None => inspect_repo(None),
    }
}

/// The remotes of a repository, given the text of its git `config` file
/// (none when there is no git directory or no readable config).
pub fn inspect_repo(config_text: Option<&str>) -> (r: Vec<RemoteInfo>)
    ensures
        remotes_view(r@) == match config_text {
            Some(t) => remotes_of_config(t@),
            None => seq![],
        },
{
    match config_text {
        Some(t) => parse_git_config(t),
        None => {
            let r: Vec<RemoteInfo> = Vec::new();
            assert(remotes_view(r@) =~= seq![]);
            r
        },
    }
}

} // verus!
