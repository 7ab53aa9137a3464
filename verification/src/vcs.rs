//! Which URLs name a repository.
use vstd::prelude::*;
use vstd::slice::slice_subrange;

use crate::text::{
    chars_of, ends_with_chars, equal_chars, find_chars, first_of_chars, behind_last_char, lower_chars,
};
use crate::text::{after_last, before_first, ends_with, find, first_of, lower};
use crate::text::{
    law_after_last_starts_behind_the_last, law_before_first_stops_at_the_first,
    law_lower_case_moves_capitals_only, law_the_first_occurrence_is_found,
};

verus! {

/// Schemes a repository URL can plausibly carry.
///
/// Checked because source locations come from community-submitted curations
/// and are served to consumers that render them as links.
/// `javascript://github.com/%0aalert(1)` has a repository host and no archive
/// extension, so without a scheme check it would be published as a repository.
pub open spec fn vcs_scheme(scheme: Seq<char>) -> bool {
    ||| scheme == "https"@
    ||| scheme == "http"@
    ||| scheme == "git"@
    ||| scheme == "git+https"@
    ||| scheme == "git+ssh"@
    ||| scheme == "ssh"@
}

/// Whether `host` is `domain` or lies below it.
pub open spec fn within_domain(host: Seq<char>, domain: Seq<char>) -> bool {
    host == domain || ends_with(host, seq!['.'] + domain)
}

/// Hosts whose URLs are repositories. Everything else upstream puts in a source
/// location is a download or a registry page.
pub open spec fn vcs_host(host: Seq<char>) -> bool {
    ||| within_domain(host, "github.com"@)
    ||| within_domain(host, "gitlab.com"@)
    ||| within_domain(host, "bitbucket.org"@)
    ||| within_domain(host, "codeberg.org"@)
    ||| within_domain(host, "sr.ht"@)
}

/// Whether a path names an archive to download.
pub open spec fn archive_path(path: Seq<char>) -> bool {
    ||| ends_with(path, ".jar"@)
    ||| ends_with(path, ".zip"@)
    ||| ends_with(path, ".gz"@)
    ||| ends_with(path, ".tgz"@)
    ||| ends_with(path, ".whl"@)
    ||| ends_with(path, ".gem"@)
    ||| ends_with(path, ".crate"@)
    ||| ends_with(path, ".bz2"@)
    ||| ends_with(path, ".xz"@)
}

/// The host of what follows `://` in a URL, in lower case: what stands before
/// the path, the query and the fragment, without user and port.
pub open spec fn host_of(rest: Seq<char>) -> Seq<char> {
    let authority = before_first(rest, seq!['/', '?', '#']);
    lower(before_first(after_last(authority, '@'), seq![':']))
}

/// The path of what follows `://` in a URL, in lower case: what stands behind
/// the first slash, without query and fragment.
pub open spec fn path_of(rest: Seq<char>) -> Seq<char> {
    let slash = first_of(rest, seq!['/'], 0);
    let behind = if slash < rest.len() {
        rest.skip(slash + 1)
    } else {
        Seq::empty()
    };
    lower(before_first(behind, seq!['?', '#']))
}

/// Whether a URL names a repository: a known scheme, a host that serves
/// repositories, and a path that is no archive.
pub open spec fn vcs_url(url: Seq<char>) -> bool {
    match find(url, seq![':', '/', '/'], 0) {
        Some(colon) => {
            let rest = url.skip(colon + 3);
            &&& vcs_scheme(lower(url.take(colon)))
            &&& host_of(rest).len() > 0
            &&& !archive_path(path_of(rest))
            &&& vcs_host(host_of(rest))
        },
        None => false,
    }
}

fn is_text(s: &[char], t: &str) -> (r: bool)
    ensures
        r == (s@ == t@),
{
    equal_chars(s, chars_of(t).as_slice())
}

fn has_suffix(s: &[char], t: &str) -> (r: bool)
    ensures
        r == ends_with(s@, t@),
{
    ends_with_chars(s, chars_of(t).as_slice())
}

fn is_within_domain(host: &[char], domain: &str) -> (r: bool)
    ensures
        r == within_domain(host@, domain@),
{
    if is_text(host, domain) {
        return true;
    }
    let mut dotted: Vec<char> = Vec::new();
    dotted.push('.');
    let mut name = chars_of(domain);
    dotted.append(&mut name);
    assert(dotted@ =~= seq!['.'] + domain@);
    ends_with_chars(host, dotted.as_slice())
}

fn is_vcs_scheme(scheme: &[char]) -> (r: bool)
    ensures
        r == vcs_scheme(scheme@),
{
    is_text(scheme, "https") || is_text(scheme, "http") || is_text(scheme, "git") || is_text(
        scheme,
        "git+https",
    ) || is_text(scheme, "git+ssh") || is_text(scheme, "ssh")
}

fn is_vcs_host(host: &[char]) -> (r: bool)
    ensures
        r == vcs_host(host@),
{
    is_within_domain(host, "github.com") || is_within_domain(host, "gitlab.com")
        || is_within_domain(host, "bitbucket.org") || is_within_domain(host, "codeberg.org")
        || is_within_domain(host, "sr.ht")
}

fn is_archive_path(path: &[char]) -> (r: bool)
    ensures
        r == archive_path(path@),
{
    has_suffix(path, ".jar") || has_suffix(path, ".zip") || has_suffix(path, ".gz") || has_suffix(
        path,
        ".tgz",
    ) || has_suffix(path, ".whl") || has_suffix(path, ".gem") || has_suffix(path, ".crate")
        || has_suffix(path, ".bz2") || has_suffix(path, ".xz")
}

fn lower_host(rest: &[char]) -> (r: Vec<char>)
    ensures
        r@ == host_of(rest@),
{
    let stops: [char; 3] = ['/', '?', '#'];
    assert(stops@ =~= seq!['/', '?', '#']);
    let end: usize = first_of_chars(rest, &stops);
    let authority = slice_subrange(rest, 0, end);
    assert(authority@ =~= before_first(rest@, seq!['/', '?', '#']));
    let start: usize = behind_last_char(authority, '@');
    let served = slice_subrange(authority, start, authority.len());
    assert(served@ =~= after_last(authority@, '@'));
    let colons: [char; 1] = [':'];
    assert(colons@ =~= seq![':']);
    let port: usize = first_of_chars(served, &colons);
    let host = slice_subrange(served, 0, port);
    assert(host@ =~= before_first(served@, seq![':']));
    lower_chars(host)
}

fn lower_path(rest: &[char]) -> (r: Vec<char>)
    ensures
        r@ == path_of(rest@),
{
    let slashes: [char; 1] = ['/'];
    assert(slashes@ =~= seq!['/']);
    let slash: usize = first_of_chars(rest, &slashes);
    let behind = if slash < rest.len() {
        slice_subrange(rest, slash + 1, rest.len())
    } else {
        slice_subrange(rest, rest.len(), rest.len())
    };
    assert(behind@ =~= if slash < rest@.len() {
        rest@.skip(slash + 1)
    } else {
        Seq::empty()
    });
    let stops: [char; 2] = ['?', '#'];
    assert(stops@ =~= seq!['?', '#']);
    let end: usize = first_of_chars(behind, &stops);
    let path = slice_subrange(behind, 0, end);
    assert(path@ =~= before_first(behind@, seq!['?', '#']));
    lower_chars(path)
}

/// Whether a URL names a repository.
pub fn is_vcs_url(url: &str) -> (r: bool)
    ensures
        r == vcs_url(url@),
{
    let chars = chars_of(url);
    let separator: [char; 3] = [':', '/', '/'];
    assert(separator@ =~= seq![':', '/', '/']);
    let colon: usize = match find_chars(chars.as_slice(), &separator) {
        Some(i) => i,
        None => {
            return false;
        },
    };
    let scheme = slice_subrange(chars.as_slice(), 0, colon);
    assert(scheme@ =~= url@.take(colon as int));
    if !is_vcs_scheme(lower_chars(scheme).as_slice()) {
        return false;
    }
    let end: usize = chars.len();
    let rest = slice_subrange(chars.as_slice(), colon + 3, end);
    assert(rest@ =~= url@.skip(colon + 3));
    let host = lower_host(rest);
    if host.len() == 0 {
        return false;
    }
    if is_archive_path(lower_path(rest).as_slice()) {
        return false;
    }
    is_vcs_host(host.as_slice())
}

/// Whether a text holds none of these characters.
pub open spec fn free_of(s: Seq<char>, stops: Seq<char>) -> bool {
    forall|i: int| 0 <= i < s.len() ==> !stops.contains(#[trigger] s[i])
}

/// Whether a text is empty or starts a query or a fragment.
pub open spec fn starts_query(s: Seq<char>) -> bool {
    s.len() == 0 || s[0] == '?' || s[0] == '#'
}

/// A URL cut into its parts, each spelt as it stands.
pub struct Parts {
    /// Before `://`.
    pub scheme: Seq<char>,
    /// With its `@`, or nothing.
    pub user: Seq<char>,
    pub host: Seq<char>,
    /// With its `:`, or nothing.
    pub port: Seq<char>,
    /// A query or a fragment that comes before any slash, or nothing.
    pub gap: Seq<char>,
    /// Behind the first slash, or `None` where there is no slash.
    pub path: Option<Seq<char>>,
    /// The query and the fragment behind the path, or nothing.
    pub query: Seq<char>,
}

impl Parts {
    pub open spec fn tail(self) -> Seq<char> {
        match self.path {
            Some(path) => seq!['/'] + path + self.query,
            None => Seq::empty(),
        }
    }

    /// What stands behind `://`.
    pub open spec fn rest(self) -> Seq<char> {
        self.user + self.host + self.port + self.gap + self.tail()
    }

    /// The whole URL.
    pub open spec fn url(self) -> Seq<char> {
        self.scheme + seq![':', '/', '/'] + self.rest()
    }

    /// Each part ends where the next begins.
    pub open spec fn cut_right(self) -> bool {
        let stops = seq!['/', '?', '#'];
        &&& !self.scheme.contains(':')
        &&& self.user.len() == 0 || self.user.last() == '@'
        &&& free_of(self.user, stops)
        &&& free_of(self.host, stops) && free_of(self.host, seq!['@', ':'])
        &&& self.port.len() == 0 || self.port[0] == ':'
        &&& free_of(self.port, stops) && !self.port.contains('@')
        &&& starts_query(self.gap) && !self.gap.contains('/')
        &&& self.path matches Some(path) ==> free_of(path, seq!['?', '#'])
        &&& starts_query(self.query)
    }
}

proof fn lemma_host_of(p: Parts)
    requires
        p.cut_right(),
    ensures
        host_of(p.rest()) == lower(p.host),
{
    let stops = seq!['/', '?', '#'];
    let authority = p.user + p.host + p.port;
    let behind = p.gap + p.tail();
    let rest = p.rest();
    assert(rest =~= authority + behind);
    assert(stops[0] == '/' && stops[1] == '?' && stops[2] == '#');
    assert(free_of(authority, stops)) by {
        assert forall|i: int| 0 <= i < authority.len() implies !stops.contains(
            #[trigger] authority[i],
        ) by {
            if i < p.user.len() {
                assert(authority[i] == p.user[i]);
            } else if i < p.user.len() + p.host.len() {
                assert(authority[i] == p.host[i - p.user.len()]);
            } else {
                assert(authority[i] == p.port[i - p.user.len() - p.host.len()]);
            }
        }
    }
    if behind.len() == 0 {
        assert(rest =~= authority);
        law_before_first_stops_at_the_first(authority, '/', seq![], stops);
    } else {
        let stop = behind[0];
        assert(stops.contains(stop));
        assert(rest =~= authority + seq![stop] + behind.skip(1));
        law_before_first_stops_at_the_first(authority, stop, behind.skip(1), stops);
    }
    assert(before_first(rest, stops) == authority);
    let at = seq!['@', ':'];
    assert(at[0] == '@' && at[1] == ':');
    let served = p.host + p.port;
    assert(!served.contains('@')) by {
        assert forall|i: int| 0 <= i < served.len() implies served[i] != '@' by {
            if i < p.host.len() {
                assert(served[i] == p.host[i]);
                assert(at.contains('@'));
            } else {
                assert(served[i] == p.port[i - p.host.len()]);
            }
        }
    }
    if p.user.len() == 0 {
        assert(authority =~= served);
        law_after_last_starts_behind_the_last(seq![], '@', served);
    } else {
        assert(authority =~= p.user.drop_last() + seq!['@'] + served);
        law_after_last_starts_behind_the_last(p.user.drop_last(), '@', served);
    }
    let colons = seq![':'];
    assert(colons[0] == ':');
    assert forall|i: int| 0 <= i < p.host.len() implies !colons.contains(#[trigger] p.host[i]) by {
        assert(at.contains(':'));
    }
    if p.port.len() == 0 {
        assert(served =~= p.host);
        law_before_first_stops_at_the_first(p.host, ':', seq![], colons);
    } else {
        assert(served =~= p.host + seq![':'] + p.port.skip(1));
        law_before_first_stops_at_the_first(p.host, ':', p.port.skip(1), colons);
    }
}

proof fn lemma_path_of(p: Parts)
    requires
        p.cut_right(),
    ensures
        path_of(p.rest()) == match p.path {
            Some(path) => lower(path),
            None => Seq::empty(),
        },
{
    let stops = seq!['/', '?', '#'];
    let slashes = seq!['/'];
    let ends = seq!['?', '#'];
    let before = p.user + p.host + p.port + p.gap;
    let rest = p.rest();
    assert(stops[0] == '/' && slashes[0] == '/' && ends[0] == '?' && ends[1] == '#');
    assert(stops.contains('/'));
    assert(free_of(before, slashes)) by {
        assert forall|i: int| 0 <= i < before.len() implies !slashes.contains(#[trigger] before[i]) by {
            let u = p.user.len();
            let h = u + p.host.len();
            let q = h + p.port.len();
            if i < u {
                assert(before[i] == p.user[i]);
            } else if i < h {
                assert(before[i] == p.host[i - u]);
            } else if i < q {
                assert(before[i] == p.port[i - h]);
            } else {
                assert(before[i] == p.gap[i - q]);
            }
        }
    }
    match p.path {
        Some(path) => {
            let behind = path + p.query;
            assert(rest =~= before + seq!['/'] + behind);
            law_before_first_stops_at_the_first(before, '/', behind, slashes);
            assert(rest.skip(before.len() as int + 1) =~= behind);
            if p.query.len() == 0 {
                assert(behind =~= path);
                law_before_first_stops_at_the_first(path, '?', seq![], ends);
            } else {
                let stop = p.query[0];
                assert(ends.contains(stop));
                assert(behind =~= path + seq![stop] + p.query.skip(1));
                law_before_first_stops_at_the_first(path, stop, p.query.skip(1), ends);
            }
        },
        None => {
            assert(rest =~= before);
            law_before_first_stops_at_the_first(before, '/', seq![], slashes);
            law_before_first_stops_at_the_first(seq![], '?', seq![], ends);
            assert(lower(Seq::<char>::empty()) =~= Seq::<char>::empty());
        },
    }
}

proof fn lemma_scheme_of(p: Parts)
    requires
        p.cut_right(),
    ensures
        find(p.url(), seq![':', '/', '/'], 0) == Some(p.scheme.len() as int),
        p.url().take(p.scheme.len() as int) == p.scheme,
        p.url().skip(p.scheme.len() as int + 3) == p.rest(),
{
    let sep = seq![':', '/', '/'];
    let url = p.url();
    let n = p.scheme.len() as int;
    law_the_first_occurrence_is_found(url, sep, 0);
    assert(url.subrange(n, n + sep.len()) =~= sep);
    match find(url, sep, 0) {
        Some(i) => {
            if i < n {
                assert(url.subrange(i, i + sep.len())[0] == sep[0]);
                assert(p.scheme[i] == ':');
            } else if n < i {
                assert(url.subrange(n, n + sep.len()) != sep);
            }
        },
        None => {
            assert(url.subrange(n, n + sep.len()) != sep);
        },
    }
    assert(url.take(n) =~= p.scheme);
    assert(url.skip(n + 3) =~= p.rest());
}

/// A URL names a repository exactly when, in whatever case they are spelt, its
/// scheme is one of six, its host is one of five or lies below one of them, and
/// its path ends in none of the nine endings of an archive. User, port, query
/// and fragment play no part.
pub proof fn law_a_url_is_judged_by_its_parts(url: &str, r: bool, p: Parts)
    requires
        call_ensures(is_vcs_url, (url,), r),
        p.cut_right(),
        url@ == p.url(),
    ensures
        r <==> {
            let scheme = lower(p.scheme);
            let host = lower(p.host);
            &&& scheme == "https"@ || scheme == "http"@ || scheme == "git"@ || scheme == "git+https"@
                || scheme == "git+ssh"@ || scheme == "ssh"@
            &&& host == "github.com"@ || host == "gitlab.com"@ || host == "bitbucket.org"@ || host
                == "codeberg.org"@ || host == "sr.ht"@ || ends_with(host, ".github.com"@)
                || ends_with(host, ".gitlab.com"@) || ends_with(host, ".bitbucket.org"@)
                || ends_with(host, ".codeberg.org"@) || ends_with(host, ".sr.ht"@)
            &&& p.path matches Some(path) ==> !{
                let end = lower(path);
                ||| ends_with(end, ".jar"@)
                ||| ends_with(end, ".zip"@)
                ||| ends_with(end, ".gz"@)
                ||| ends_with(end, ".tgz"@)
                ||| ends_with(end, ".whl"@)
                ||| ends_with(end, ".gem"@)
                ||| ends_with(end, ".crate"@)
                ||| ends_with(end, ".bz2"@)
                ||| ends_with(end, ".xz"@)
            }
        },
{
    lemma_scheme_of(p);
    lemma_host_of(p);
    lemma_path_of(p);
    lemma_dotted_hosts();
    lemma_endings();
    reveal_strlit("github.com");
    reveal_strlit("gitlab.com");
    reveal_strlit("bitbucket.org");
    reveal_strlit("codeberg.org");
    reveal_strlit("sr.ht");
}

proof fn lemma_dotted_hosts()
    ensures
        seq!['.'] + "github.com"@ == ".github.com"@,
        seq!['.'] + "gitlab.com"@ == ".gitlab.com"@,
        seq!['.'] + "bitbucket.org"@ == ".bitbucket.org"@,
        seq!['.'] + "codeberg.org"@ == ".codeberg.org"@,
        seq!['.'] + "sr.ht"@ == ".sr.ht"@,
        ".github.com"@.len() == 11,
        ".gitlab.com"@.len() == 11,
        ".bitbucket.org"@.len() == 14,
        ".codeberg.org"@.len() == 13,
        ".sr.ht"@.len() == 6,
{
    reveal_strlit("github.com");
    reveal_strlit("gitlab.com");
    reveal_strlit("bitbucket.org");
    reveal_strlit("codeberg.org");
    reveal_strlit("sr.ht");
    reveal_strlit(".github.com");
    reveal_strlit(".gitlab.com");
    reveal_strlit(".bitbucket.org");
    reveal_strlit(".codeberg.org");
    reveal_strlit(".sr.ht");
    assert(seq!['.'] + "github.com"@ =~= ".github.com"@);
    assert(seq!['.'] + "gitlab.com"@ =~= ".gitlab.com"@);
    assert(seq!['.'] + "bitbucket.org"@ =~= ".bitbucket.org"@);
    assert(seq!['.'] + "codeberg.org"@ =~= ".codeberg.org"@);
    assert(seq!['.'] + "sr.ht"@ =~= ".sr.ht"@);
}

/// An empty path has no ending.
proof fn lemma_endings()
    ensures
        !archive_path(Seq::empty()),
{
    reveal_strlit(".jar");
    reveal_strlit(".zip");
    reveal_strlit(".gz");
    reveal_strlit(".tgz");
    reveal_strlit(".whl");
    reveal_strlit(".gem");
    reveal_strlit(".crate");
    reveal_strlit(".bz2");
    reveal_strlit(".xz");
}

/// What names a repository has a scheme: one of six, in whatever case, before
/// the first `://`.
pub proof fn law_a_repository_has_a_scheme(url: &str, r: bool)
    requires
        call_ensures(is_vcs_url, (url,), r),
        r,
    ensures
        exists|n: int|
            {
                &&& 0 <= n && n + 3 <= url@.len()
                &&& #[trigger] url@.subrange(n, n + 3) == seq![':', '/', '/']
                &&& {
                    let scheme = lower(url@.take(n));
                    scheme == "https"@ || scheme == "http"@ || scheme == "git"@ || scheme
                        == "git+https"@ || scheme == "git+ssh"@ || scheme == "ssh"@
                }
            },
{
    law_the_first_occurrence_is_found(url@, seq![':', '/', '/'], 0);
    let n = find(url@, seq![':', '/', '/'], 0)->0;
    assert(url@.subrange(n, n + 3) == seq![':', '/', '/']);
}

/// A page of a host of repositories is accepted whatever its path, dots in it
/// and all, unless the path ends as an archive does.
pub proof fn law_only_an_ending_makes_an_archive(
    scheme: Seq<char>,
    host: Seq<char>,
    path: Seq<char>,
)
    requires
        scheme == "https"@ || scheme == "http"@ || scheme == "git"@ || scheme == "git+https"@
            || scheme == "git+ssh"@ || scheme == "ssh"@,
        host == "github.com"@ || host == "gitlab.com"@ || host == "bitbucket.org"@ || host
            == "codeberg.org"@ || host == "sr.ht"@,
        !path.contains('?'),
        !path.contains('#'),
    ensures
        vcs_url(scheme + seq![':', '/', '/'] + host + seq!['/'] + path) <==> !{
            let end = lower(path);
            ||| ends_with(end, ".jar"@)
            ||| ends_with(end, ".zip"@)
            ||| ends_with(end, ".gz"@)
            ||| ends_with(end, ".tgz"@)
            ||| ends_with(end, ".whl"@)
            ||| ends_with(end, ".gem"@)
            ||| ends_with(end, ".crate"@)
            ||| ends_with(end, ".bz2"@)
            ||| ends_with(end, ".xz"@)
        },
{
    reveal_strlit("https");
    reveal_strlit("http");
    reveal_strlit("git");
    reveal_strlit("git+https");
    reveal_strlit("git+ssh");
    reveal_strlit("ssh");
    reveal_strlit("github.com");
    reveal_strlit("gitlab.com");
    reveal_strlit("bitbucket.org");
    reveal_strlit("codeberg.org");
    reveal_strlit("sr.ht");
    let none = Seq::<char>::empty();
    let p = Parts { scheme, user: none, host, port: none, gap: none, path: Some(path), query: none };
    assert(p.url() =~= scheme + seq![':', '/', '/'] + host + seq!['/'] + path);
    let stops = seq!['/', '?', '#'];
    let at = seq!['@', ':'];
    let ends = seq!['?', '#'];
    assert(forall|i: int| 0 <= i < scheme.len() ==> scheme[i] != ':');
    assert forall|i: int| 0 <= i < host.len() implies !stops.contains(#[trigger] host[i])
        && !at.contains(host[i]) by {
        assert(host[i] != '/' && host[i] != '?' && host[i] != '#' && host[i] != '@' && host[i]
            != ':');
    }
    assert forall|i: int| 0 <= i < path.len() implies !ends.contains(#[trigger] path[i]) by {
        assert(path[i] != '?' && path[i] != '#');
    }
    assert(p.cut_right());
    lemma_scheme_of(p);
    lemma_host_of(p);
    lemma_path_of(p);
    assert(lower(scheme) =~= scheme) by {
        assert forall|i: int| 0 <= i < scheme.len() implies lower(scheme)[i] == scheme[i] by {
            law_lower_case_moves_capitals_only(scheme, i);
        }
    }
    assert(lower(host) =~= host) by {
        assert forall|i: int| 0 <= i < host.len() implies lower(host)[i] == host[i] by {
            law_lower_case_moves_capitals_only(host, i);
        }
    }
}

} // verus!
