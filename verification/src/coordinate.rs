//! The coordinates the service forwards, and the one string that is both the
//! upstream path and the cache key.
use std::borrow::Cow;
use vstd::prelude::*;
use vstd::slice::slice_subrange;

use crate::fault::FetchError;
use crate::text::{chars_of, contains_char, same_text};
use crate::fault::Fault;
use crate::text::{lemma_split_append, lemma_split_nonempty, lemma_split_plain, split};

verus! {

/// Coordinate type/provider pairs the service will forward.
///
/// An allow-list, not a convenience: without it any path would be reflected
/// into an upstream URL, which makes the service a general-purpose proxy for
/// whoever finds it.
pub open spec fn allowed_type(kind: Seq<char>, provider: Seq<char>) -> bool {
    ||| kind == "pypi"@ && provider == "pypi"@
    ||| kind == "npm"@ && provider == "npmjs"@
    ||| kind == "crate"@ && provider == "cratesio"@
    ||| kind == "maven"@ && provider == "mavencentral"@
    ||| kind == "gem"@ && provider == "rubygems"@
    ||| kind == "nuget"@ && provider == "nuget"@
    ||| kind == "go"@ && provider == "golang"@
    ||| kind == "deb"@ && provider == "debian"@
    ||| kind == "composer"@ && provider == "packagist"@
    ||| kind == "pod"@ && provider == "cocoapods"@
}

/// The characters a coordinate may be spelt with.
pub open spec fn part_char(c: char) -> bool {
    ||| '0' <= c <= '9'
    ||| 'A' <= c <= 'Z'
    ||| 'a' <= c <= 'z'
    ||| c == '-'
    ||| c == '_'
    ||| c == '.'
    ||| c == '+'
    ||| c == '@'
    ||| c == '~'
}

/// One part of a segment, between slashes: not empty, no step up or on the
/// spot, and spelt with the permitted characters.
pub open spec fn safe_part(part: Seq<char>) -> bool {
    &&& part.len() > 0
    &&& part != seq!['.']
    &&& part != seq!['.', '.']
    &&& forall|i: int| 0 <= i < part.len() ==> part_char(#[trigger] part[i])
}

/// A segment that may be interpolated into an upstream path: of 1 to 256
/// bytes, without a leftover `%`, and safe in each part between slashes.
pub open spec fn safe_segment(s: Seq<char>) -> bool {
    &&& s.len() > 0
    &&& vstd::utf8::encode_utf8(s).len() <= 256
    &&& !s.contains('%')
    &&& forall|i: int| 0 <= i < split(s, '/').len() ==> safe_part(#[trigger] split(s, '/')[i])
}

/// A text with each slash spelt `%2f`.
pub open spec fn encoded(s: Seq<char>) -> Seq<char>
    decreases s.len(),
{
    if s.len() == 0 {
        s
    } else if s.last() == '/' {
        encoded(s.drop_last()) + seq!['%', '2', 'f']
    } else {
        encoded(s.drop_last()).push(s.last())
    }
}

/// A validated ClearlyDefined coordinate.
#[derive(Debug, PartialEq)]
pub struct Coordinate {
    pub kind: String,
    pub provider: String,
    pub namespace: String,
    pub name: String,
    pub revision: String,
}

/// What a [`Coordinate`] names.
#[verifier::ext_equal]
pub struct Place {
    pub kind: Seq<char>,
    pub provider: Seq<char>,
    pub namespace: Seq<char>,
    pub name: Seq<char>,
    pub revision: Seq<char>,
}

impl Place {
    pub open spec fn safe(self) -> bool {
        &&& safe_segment(self.namespace)
        &&& safe_segment(self.name)
        &&& safe_segment(self.revision)
    }

    /// Whether the service forwards it.
    pub open spec fn valid(self) -> bool {
        allowed_type(self.kind, self.provider) && self.safe()
    }

    /// The upstream path, and the cache key.
    pub open spec fn key(self) -> Seq<char> {
        self.kind + seq!['/'] + self.provider + seq!['/'] + encoded(self.namespace) + seq!['/']
            + encoded(self.name) + seq!['/'] + encoded(self.revision)
    }
}

impl View for Coordinate {
    type V = Place;

    open spec fn view(&self) -> Place {
        Place {
            kind: self.kind@,
            provider: self.provider@,
            namespace: self.namespace@,
            name: self.name@,
            revision: self.revision@,
        }
    }
}

impl Clone for Coordinate {
    fn clone(&self) -> (r: Self)
        ensures
            r@ == self@,
    {
        Coordinate {
            kind: self.kind.clone(),
            provider: self.provider.clone(),
            namespace: self.namespace.clone(),
            name: self.name.clone(),
            revision: self.revision.clone(),
        }
    }
}

fn is_allowed_type(kind: &str, provider: &str) -> (r: bool)
    ensures
        r == allowed_type(kind@, provider@),
{
    same_text(kind, "pypi") && same_text(provider, "pypi")
        || same_text(kind, "npm") && same_text(provider, "npmjs")
        || same_text(kind, "crate") && same_text(provider, "cratesio")
        || same_text(kind, "maven") && same_text(provider, "mavencentral")
        || same_text(kind, "gem") && same_text(provider, "rubygems")
        || same_text(kind, "nuget") && same_text(provider, "nuget")
        || same_text(kind, "go") && same_text(provider, "golang")
        || same_text(kind, "deb") && same_text(provider, "debian")
        || same_text(kind, "composer") && same_text(provider, "packagist")
        || same_text(kind, "pod") && same_text(provider, "cocoapods")
}

fn is_part_char(c: char) -> (r: bool)
    ensures
        r == part_char(c),
{
    ('0' <= c && c <= '9') || ('A' <= c && c <= 'Z') || ('a' <= c && c <= 'z') || c == '-' || c
        == '_' || c == '.' || c == '+' || c == '@' || c == '~'
}

fn is_safe_part(part: &[char]) -> (r: bool)
    ensures
        r == safe_part(part@),
{
    if part.len() == 0 {
        return false;
    }
    if part.len() == 1 && part[0] == '.' {
        assert(part@ =~= seq!['.']);
        return false;
    }
    if part.len() == 2 && part[0] == '.' && part[1] == '.' {
        assert(part@ =~= seq!['.', '.']);
        return false;
    }
    let mut i: usize = 0;
    while i < part.len()
        invariant
            i <= part@.len(),
            forall|j: int| 0 <= j < i ==> part_char(#[trigger] part@[j]),
        decreases part@.len() - i,
    {
        if !is_part_char(part[i]) {
            return false;
        }
        i += 1;
    }
    true
}

/// Whether a segment may be interpolated into an upstream path.
///
/// The shape of that path is preserved by this function and the encoding of
/// slashes together, not by this one alone: a slash is permitted here and
/// re-encoded there, so it stays inside a single segment rather than becoming a
/// new one.
///
/// Segments arrive percent-decoded once. A slash is allowed within one because
/// a Go module path is one coordinate segment containing slashes. A leftover
/// `%` is refused: no legitimate coordinate still contains an escape after one
/// decode, so the caller encoded twice, and forwarding that would let upstream
/// decode it a second time.
pub fn is_safe_segment(s: &str) -> (r: bool)
    ensures
        r == safe_segment(s@),
{
    let chars = chars_of(s);
    if chars.len() == 0 || s.as_bytes().len() > 256 || contains_char(chars.as_slice(), '%') {
        return false;
    }
    let n: usize = chars.len();
    let mut start: usize = 0;
    let mut i: usize = 0;
    assert(s@.take(0) =~= Seq::<char>::empty());
    assert(s@.subrange(0, 0) =~= Seq::<char>::empty());
    while i < n
        invariant
            start <= i <= n,
            n == chars@.len(),
            chars@ == s@,
            split(s@.take(i as int), '/').len() > 0,
            split(s@.take(i as int), '/').last() == s@.subrange(start as int, i as int),
            forall|j: int|
                0 <= j < split(s@.take(i as int), '/').len() - 1 ==> safe_part(
                    #[trigger] split(s@.take(i as int), '/')[j],
                ),
        decreases n - i,
    {
        let ghost before = split(s@.take(i as int), '/');
        let ghost after = split(s@.take(i + 1), '/');
        assert(s@.take(i + 1).drop_last() =~= s@.take(i as int));
        if chars[i] == '/' {
            assert(after == before.push(Seq::empty()));
            if !is_safe_part(slice_subrange(chars.as_slice(), start, i)) {
                proof {
                    let at = before.len() - 1;
                    lemma_split_prefix(s@, '/', i + 1, n as int, at);
                    assert(after[at] == before.last());
                    assert(s@.take(n as int) =~= s@);
                    assert(!safe_part(split(s@, '/')[at]));
                }
                return false;
            }
            start = i + 1;
            assert(s@.subrange(start as int, i + 1) =~= Seq::<char>::empty());
        } else {
            assert(after == before.drop_last().push(before.last().push(s@[i as int])));
            assert(s@.subrange(start as int, i + 1) =~= s@.subrange(start as int, i as int).push(
                s@[i as int],
            ));
        }
        i += 1;
    }
    assert(s@.take(n as int) =~= s@);
    let last = is_safe_part(slice_subrange(chars.as_slice(), start, n));
    proof {
        let pieces = split(s@, '/');
        assert(pieces[pieces.len() - 1] == s@.subrange(start as int, n as int));
        assert forall|j: int| 0 <= j < pieces.len() && last implies safe_part(
            #[trigger] pieces[j],
        ) by {}
    }
    last
}

/// A segment with its slashes spelt `%2f`. Borrows unless there is actually a
/// slash to encode.
pub fn encode_slashes(s: &str) -> (r: Cow<'_, str>)
    ensures
        r@ == encoded(s@),
        r is Borrowed <==> !s@.contains('/'),
{
    let chars = chars_of(s);
    if !contains_char(chars.as_slice(), '/') {
        proof {
            lemma_encoded_plain(s@);
        }
        return Cow::Borrowed(s);
    }
    let mut out = String::new();
    let mut i: usize = 0;
    assert(s@.take(0) =~= Seq::<char>::empty());
    while i < chars.len()
        invariant
            i <= chars@.len(),
            chars@ == s@,
            out@ == encoded(s@.take(i as int)),
        decreases chars@.len() - i,
    {
        assert(s@.take(i + 1).drop_last() =~= s@.take(i as int));
        if chars[i] == '/' {
            let ghost before = out@;
            out.push('%');
            out.push('2');
            out.push('f');
            assert(out@ =~= before + seq!['%', '2', 'f']);
        } else {
            out.push(chars[i]);
        }
        i += 1;
    }
    assert(s@.take(i as int) =~= s@);
    Cow::Owned(out)
}

fn append_encoded(out: &mut String, s: &str)
    ensures
        final(out)@ == old(out)@ + encoded(s@),
{
    match encode_slashes(s) {
        Cow::Borrowed(t) => out.append(t),
        Cow::Owned(t) => out.append(t.as_str()),
    }
}

impl Coordinate {
    /// Accepts the coordinates the service forwards, and no others.
    pub fn parse(
        kind: &str,
        provider: &str,
        namespace: &str,
        name: &str,
        revision: &str,
    ) -> (r: Result<Self, FetchError>)
        ensures
            ({
                let place = Place {
                    kind: kind@,
                    provider: provider@,
                    namespace: namespace@,
                    name: name@,
                    revision: revision@,
                };
                match r {
                    Ok(c) => place.valid() && c@ == place,
                    Err(e) => !place.valid() && e@ == Fault::Rejected(
                        if allowed_type(kind@, provider@) {
                            "invalid coordinate segment"@
                        } else {
                            "unsupported type/provider"@
                        },
                    ),
                }
            }),
    {
        if !is_allowed_type(kind, provider) {
            return Err(FetchError::Rejected("unsupported type/provider"));
        }
        if !is_safe_segment(namespace) || !is_safe_segment(name) || !is_safe_segment(revision) {
            return Err(FetchError::Rejected("invalid coordinate segment"));
        }
        // Stored exactly as they arrived, which is to say decoded. Encoding
        // happens in one place, `cache_key`, so the cache key and the upstream
        // path cannot disagree about how a slash is spelt.
        Ok(
            Coordinate {
                kind: kind.to_owned(),
                provider: provider.to_owned(),
                namespace: namespace.to_owned(),
                name: name.to_owned(),
                revision: revision.to_owned(),
            },
        )
    }

    /// The upstream path, and the cache key -- deliberately the same string.
    ///
    /// Slashes inside a segment are re-encoded: upstream expects a Go module
    /// path as one segment with `%2f` separators, and sending the decoded form
    /// would add path components and shift every segment after it.
    pub fn cache_key(&self) -> (r: String)
        ensures
            r@ == self@.key(),
    {
        let mut out = self.kind.clone();
        out.push('/');
        out.append(self.provider.as_str());
        out.push('/');
        append_encoded(&mut out, self.namespace.as_str());
        out.push('/');
        append_encoded(&mut out, self.name.as_str());
        out.push('/');
        append_encoded(&mut out, self.revision.as_str());
        assert(out@ =~= self@.key());
        out
    }
}

proof fn lemma_encoded_plain(s: Seq<char>)
    requires
        !s.contains('/'),
    ensures
        encoded(s) == s,
    decreases s.len(),
{
    if s.len() > 0 {
        assert(s[s.len() - 1] == s.last());
        assert forall|i: int| 0 <= i < s.len() - 1 implies s.drop_last()[i] != '/' by {
            assert(s[i] != '/');
        }
        lemma_encoded_plain(s.drop_last());
        assert(s.drop_last().push(s.last()) =~= s);
    }
}

/// A piece that a separator has closed stays as it is, whatever follows.
proof fn lemma_split_prefix(s: Seq<char>, sep: char, from: int, to: int, at: int)
    requires
        0 <= from <= to <= s.len(),
        0 <= at < split(s.take(from), sep).len() - 1,
    ensures
        at < split(s.take(to), sep).len() - 1,
        split(s.take(to), sep)[at] == split(s.take(from), sep)[at],
        to == s.len() ==> split(s, sep)[at] == split(s.take(from), sep)[at],
    decreases to - from,
{
    if from < to {
        lemma_split_prefix(s, sep, from, to - 1, at);
        assert(s.take(to).drop_last() =~= s.take(to - 1));
    }
    if to == s.len() {
        assert(s.take(to) =~= s);
    }
}

proof fn lemma_encoded_chars(s: Seq<char>, i: int)
    requires
        0 <= i < encoded(s).len(),
        forall|j: int| 0 <= j < s.len() ==> part_char(#[trigger] s[j]) || s[j] == '/',
    ensures
        part_char(encoded(s)[i]) || encoded(s)[i] == '%',
        encoded(s)[i] == '%' ==> i + 2 < encoded(s).len() && encoded(s)[i + 1] == '2' && encoded(
            s,
        )[i + 2] == 'f',
    decreases s.len(),
{
    if s.len() > 0 {
        let head = encoded(s.drop_last());
        assert forall|j: int| 0 <= j < s.drop_last().len() implies part_char(
            #[trigger] s.drop_last()[j],
        ) || s.drop_last()[j] == '/' by {
            assert(s.drop_last()[j] == s[j]);
        }
        if i < head.len() {
            lemma_encoded_chars(s.drop_last(), i);
        } else {
            assert(part_char(s[s.len() - 1]) || s[s.len() - 1] == '/');
        }
    }
}

proof fn lemma_split_piece_chars(s: Seq<char>, sep: char, p: spec_fn(char) -> bool)
    requires
        forall|i: int, j: int|
            0 <= i < split(s, sep).len() && 0 <= j < split(s, sep)[i].len() ==> p(
                #[trigger] split(s, sep)[i][j],
            ),
    ensures
        forall|j: int| 0 <= j < s.len() ==> #[trigger] s[j] == sep || p(s[j]),
    decreases s.len(),
{
    if s.len() > 0 {
        let init = s.drop_last();
        let before = split(init, sep);
        let all = split(s, sep);
        lemma_split_nonempty(init, sep);
        assert forall|i: int, j: int|
            0 <= i < before.len() && 0 <= j < before[i].len() implies p(
            #[trigger] before[i][j],
        ) by {
            assert(all[i][j] == before[i][j]);
        }
        lemma_split_piece_chars(init, sep, p);
        if s.last() != sep {
            let last = all.len() - 1;
            let at = all[last].len() - 1;
            assert(all[last][at] == s.last());
        }
        assert forall|j: int| 0 <= j < s.len() implies #[trigger] s[j] == sep || p(s[j]) by {
            if j < s.len() - 1 {
                assert(init[j] == s[j]);
            }
        }
    }
}

/// The characters of a safe segment are the permitted ones and slashes.
proof fn lemma_safe_segment_chars(s: Seq<char>)
    requires
        safe_segment(s),
    ensures
        forall|j: int| 0 <= j < s.len() ==> part_char(#[trigger] s[j]) || s[j] == '/',
{
    let p = |c: char| part_char(c);
    assert forall|i: int, j: int|
        0 <= i < split(s, '/').len() && 0 <= j < split(s, '/')[i].len() implies p(
        #[trigger] split(s, '/')[i][j],
    ) by {
        assert(safe_part(split(s, '/')[i]));
    }
    lemma_split_piece_chars(s, '/', p);
}

proof fn lemma_encoded_len(s: Seq<char>)
    ensures
        encoded(s).len() >= s.len(),
    decreases s.len(),
{
    if s.len() > 0 {
        lemma_encoded_len(s.drop_last());
    }
}

/// A safe segment, encoded, is one path component that stays where it is: not
/// empty, no slash in it, and neither `.` nor `..`.
proof fn lemma_encoded_component(s: Seq<char>)
    requires
        safe_segment(s),
    ensures
        component(encoded(s)),
{
    lemma_safe_segment_chars(s);
    lemma_encoded_len(s);
    let e = encoded(s);
    assert forall|i: int| 0 <= i < e.len() implies #[trigger] e[i] != '/' by {
        lemma_encoded_chars(s, i);
    }
    if s.contains('/') {
        lemma_encoded_has_percent(s);
    } else {
        lemma_encoded_plain(s);
        lemma_split_plain(s, '/');
        assert(safe_part(split(s, '/')[0]));
    }
}

proof fn lemma_encoded_has_percent(s: Seq<char>)
    requires
        s.contains('/'),
    ensures
        encoded(s).contains('%'),
    decreases s.len(),
{
    let head = encoded(s.drop_last());
    if s.last() == '/' {
        assert(encoded(s)[head.len() as int] == '%');
    } else {
        let i = choose|i: int| 0 <= i < s.len() && s[i] == '/';
        assert(s.drop_last()[i] == '/');
        lemma_encoded_has_percent(s.drop_last());
        let k = choose|k: int| 0 <= k < head.len() && head[k] == '%';
        assert(encoded(s)[k] == '%');
    }
}

/// Texts without `%` that are encoded alike are alike.
proof fn lemma_encoded_injective(a: Seq<char>, b: Seq<char>)
    requires
        !a.contains('%'),
        !b.contains('%'),
        encoded(a) == encoded(b),
    ensures
        a == b,
    decreases a.len() + b.len(),
{
    lemma_encoded_len(a);
    lemma_encoded_len(b);
    if a.len() == 0 || b.len() == 0 {
        assert(a =~= b);
    } else {
        let ia = a.drop_last();
        let ib = b.drop_last();
        assert(!ia.contains('%')) by {
            assert forall|i: int| 0 <= i < ia.len() implies ia[i] != '%' by {
                assert(a[i] == ia[i]);
            }
        }
        assert(!ib.contains('%')) by {
            assert forall|i: int| 0 <= i < ib.len() implies ib[i] != '%' by {
                assert(b[i] == ib[i]);
            }
        }
        let e = encoded(a);
        if (a.last() == '/') == (b.last() == '/') {
            if a.last() == '/' {
                assert(encoded(ia) =~= e.take(e.len() - 3));
                assert(encoded(ib) =~= e.take(e.len() - 3));
            } else {
                assert(encoded(ia) =~= e.drop_last());
                assert(encoded(ib) =~= e.drop_last());
                assert(a.last() == e.last() && b.last() == e.last());
            }
            lemma_encoded_injective(ia, ib);
            assert(a =~= ia.push(a.last()));
            assert(b =~= ib.push(b.last()));
        } else if a.last() == '/' {
            lemma_no_plain_escape(b, encoded(ia));
        } else {
            lemma_no_plain_escape(a, encoded(ib));
        }
    }
}

/// Only a slash encodes to something that ends in `%2f`.
proof fn lemma_no_plain_escape(s: Seq<char>, head: Seq<char>)
    requires
        s.len() > 0,
        s.last() != '/',
        !s.contains('%'),
    ensures
        encoded(s) != head + seq!['%', '2', 'f'],
{
    let e = encoded(s);
    if e == head + seq!['%', '2', 'f'] {
        let s1 = s.drop_last();
        let e1 = encoded(s1);
        assert(e1 =~= e.drop_last());
        assert(e1 =~= head + seq!['%', '2']);
        assert(s1.len() > 0);
        assert(e1.last() == '2');
        assert(s1.last() != '/');
        let s2 = s1.drop_last();
        let e2 = encoded(s2);
        assert(e2 =~= e1.drop_last());
        assert(e2 =~= head + seq!['%']);
        assert(s2.len() > 0);
        assert(e2.last() == '%');
        assert(s2.last() != '/');
        assert(s2.last() == '%');
        assert(s[s.len() - 3] == '%');
    }
}

/// A path component that stays where it is: not empty, no slash in it, and
/// neither `.` nor `..`.
pub open spec fn component(s: Seq<char>) -> bool {
    s.len() > 0 && !s.contains('/') && s != seq!['.'] && s != seq!['.', '.']
}

proof fn lemma_allowed_components(kind: Seq<char>, provider: Seq<char>)
    requires
        allowed_type(kind, provider),
    ensures
        component(kind),
        component(provider),
        forall|i: int| 0 <= i < kind.len() ==> part_char(#[trigger] kind[i]),
        forall|i: int| 0 <= i < provider.len() ==> part_char(#[trigger] provider[i]),
{
    reveal_strlit("pypi");
    reveal_strlit("npm");
    reveal_strlit("npmjs");
    reveal_strlit("crate");
    reveal_strlit("cratesio");
    reveal_strlit("maven");
    reveal_strlit("mavencentral");
    reveal_strlit("gem");
    reveal_strlit("rubygems");
    reveal_strlit("nuget");
    reveal_strlit("go");
    reveal_strlit("golang");
    reveal_strlit("deb");
    reveal_strlit("debian");
    reveal_strlit("composer");
    reveal_strlit("packagist");
    reveal_strlit("pod");
    reveal_strlit("cocoapods");
    assert(kind.len() > 0 && provider.len() > 0);
    assert(forall|i: int| 0 <= i < kind.len() ==> #[trigger] kind[i] != '/' && kind[i] != '.');
    assert(forall|i: int|
        0 <= i < provider.len() ==> #[trigger] provider[i] != '/' && provider[i] != '.');
    assert(kind[0] != seq!['.'][0] && kind[0] != seq!['.', '.'][0]);
    assert(provider[0] != seq!['.'][0] && provider[0] != seq!['.', '.'][0]);
}

/// The upstream path of a forwarded coordinate has exactly the five components
/// of the coordinate, and none of them can move to another place: none is empty
/// and none is `.` or `..`.
pub proof fn law_key_has_five_components(place: Place)
    requires
        place.valid(),
    ensures
        split(place.key(), '/') == seq![
            place.kind,
            place.provider,
            encoded(place.namespace),
            encoded(place.name),
            encoded(place.revision),
        ],
        forall|i: int| 0 <= i < 5 ==> component(#[trigger] split(place.key(), '/')[i]),
{
    let (k, p) = (place.kind, place.provider);
    let (ns, name, rev) = (
        encoded(place.namespace),
        encoded(place.name),
        encoded(place.revision),
    );
    lemma_allowed_components(k, p);
    lemma_encoded_component(place.namespace);
    lemma_encoded_component(place.name);
    lemma_encoded_component(place.revision);
    lemma_split_plain(k, '/');
    lemma_split_plain(p, '/');
    lemma_split_plain(ns, '/');
    lemma_split_plain(name, '/');
    lemma_split_plain(rev, '/');
    let s2 = k + seq!['/'] + p;
    let s3 = s2 + seq!['/'] + ns;
    let s4 = s3 + seq!['/'] + name;
    lemma_split_append(k, p, '/');
    lemma_split_append(s2, ns, '/');
    lemma_split_append(s3, name, '/');
    lemma_split_append(s4, rev, '/');
    assert(place.key() == s4 + seq!['/'] + rev);
    assert(split(place.key(), '/') =~= seq![k, p, ns, name, rev]);
}

/// Two forwarded coordinates with one cache key are one coordinate: no caller
/// can be answered with what another coordinate holds.
pub proof fn law_key_names_one_coordinate(a: Place, b: Place)
    requires
        a.valid(),
        b.valid(),
        a.key() == b.key(),
    ensures
        a == b,
{
    law_key_has_five_components(a);
    law_key_has_five_components(b);
    let pieces = split(a.key(), '/');
    assert(pieces[0] == a.kind && pieces[0] == b.kind);
    assert(pieces[1] == a.provider && pieces[1] == b.provider);
    assert(pieces[2] == encoded(a.namespace) && pieces[2] == encoded(b.namespace));
    assert(pieces[3] == encoded(a.name) && pieces[3] == encoded(b.name));
    assert(pieces[4] == encoded(a.revision) && pieces[4] == encoded(b.revision));
    lemma_encoded_injective(a.namespace, b.namespace);
    lemma_encoded_injective(a.name, b.name);
    lemma_encoded_injective(a.revision, b.revision);
}

/// A forwarded path is spelt with the permitted characters, the slashes between
/// its components, and `%2f`: no query, no fragment, and no escape that
/// upstream would decode into anything but a slash.
pub proof fn law_key_is_spelt_safely(place: Place, i: int)
    requires
        place.valid(),
        0 <= i < place.key().len(),
    ensures
        part_char(place.key()[i]) || place.key()[i] == '/' || place.key()[i] == '%',
        place.key()[i] == '%' ==> i + 2 < place.key().len() && place.key()[i + 1] == '2'
            && place.key()[i + 2] == 'f',
{
    let (k, p) = (place.kind, place.provider);
    let (ns, name, rev) = (
        encoded(place.namespace),
        encoded(place.name),
        encoded(place.revision),
    );
    lemma_allowed_components(k, p);
    lemma_safe_segment_chars(place.namespace);
    lemma_safe_segment_chars(place.name);
    lemma_safe_segment_chars(place.revision);
    let at_ns = k.len() + 1 + p.len() + 1;
    let at_name = at_ns + ns.len() + 1;
    let at_rev = at_name + name.len() + 1;
    if i < k.len() {
        assert(place.key()[i] == k[i]);
    } else if i == k.len() {
    } else if i < at_ns - 1 {
        assert(place.key()[i] == p[i - k.len() - 1]);
    } else if i == at_ns - 1 {
    } else if i < at_name - 1 {
        assert(place.key()[i] == ns[i - at_ns]);
        lemma_encoded_chars(place.namespace, i - at_ns);
    } else if i == at_name - 1 {
    } else if i < at_rev - 1 {
        assert(place.key()[i] == name[i - at_name]);
        lemma_encoded_chars(place.name, i - at_name);
    } else if i == at_rev - 1 {
    } else {
        assert(place.key()[i] == rev[i - at_rev]);
        lemma_encoded_chars(place.revision, i - at_rev);
    }
}

/// The code points a coordinate may be spelt with: ten digits, twenty-six
/// capital and as many small letters, and `-`, `_`, `.`, `+`, `@` and `~`.
pub open spec fn spelling_code(u: int) -> bool {
    ||| 48 <= u < 48 + 10
    ||| 65 <= u < 65 + 26
    ||| 97 <= u < 97 + 26
    ||| u == 45 || u == 95 || u == 46 || u == 43 || u == 64 || u == 126
}

/// Whether the stretch from `i` to `j` is a part of a segment: everything
/// between two neighbouring slashes, or a slash and an end.
pub open spec fn is_part(s: Seq<char>, i: int, j: int) -> bool {
    &&& 0 <= i <= j <= s.len()
    &&& i == 0 || s[i - 1] == '/'
    &&& j == s.len() || s[j] == '/'
    &&& forall|k: int| i <= k < j ==> #[trigger] s[k] != '/'
}

/// A segment is accepted exactly when it has 1 to 256 characters, each of them
/// a slash or one a coordinate may be spelt with, and no part between slashes
/// is empty, `.` or `..`.
pub proof fn law_which_segments_are_safe(segment: &str, r: bool)
    requires
        call_ensures(is_safe_segment, (segment,), r),
    ensures
        r <==> {
            let s = segment@;
            &&& 1 <= s.len() <= 256
            &&& forall|k: int|
                0 <= k < s.len() ==> #[trigger] s[k] as int == 47 || spelling_code(s[k] as int)
            &&& forall|i: int, j: int| #[trigger]
                is_part(s, i, j) ==> j > i && !(j == i + 1 && s[i] == '.') && !(j == i + 2 && s[i]
                    == '.' && s[i + 1] == '.')
        },
{
    let s = segment@;
    let spelt = forall|k: int|
        0 <= k < s.len() ==> #[trigger] s[k] as int == 47 || spelling_code(s[k] as int);
    let parted = forall|i: int, j: int| #[trigger]
        is_part(s, i, j) ==> j > i && !(j == i + 1 && s[i] == '.') && !(j == i + 2 && s[i] == '.'
            && s[i + 1] == '.');
    if safe_segment(s) {
        lemma_safe_segment_chars(s);
        lemma_ascii_bytes(s);
        assert forall|i: int, j: int| #[trigger] is_part(s, i, j) implies j > i && !(j == i + 1
            && s[i] == '.') && !(j == i + 2 && s[i] == '.' && s[i + 1] == '.') by {
            let k = lemma_part_is_piece(s, i, j);
            let part = split(s, '/')[k];
            assert(safe_part(part));
            if j == i + 1 && s[i] == '.' {
                assert(part =~= seq!['.']);
            }
            if j == i + 2 && s[i] == '.' && s[i + 1] == '.' {
                assert(part =~= seq!['.', '.']);
            }
        }
    }
    if 1 <= s.len() <= 256 && spelt && parted {
        lemma_ascii_bytes(s);
        assert(!s.contains('%')) by {
            assert forall|k: int| 0 <= k < s.len() implies s[k] != '%' by {}
        }
        assert forall|k: int| 0 <= k < split(s, '/').len() implies safe_part(
            #[trigger] split(s, '/')[k],
        ) by {
            let (i, j) = lemma_piece_is_part(s, k);
            let part = s.subrange(i, j);
            assert(is_part(s, i, j));
            assert forall|m: int| 0 <= m < part.len() implies part_char(#[trigger] part[m]) by {
                assert(part[m] == s[i + m]);
            }
            if part == seq!['.'] {
                assert(part[0] == '.');
            }
            if part == seq!['.', '.'] {
                assert(part[0] == '.' && part[1] == '.');
            }
        }
    }
}

proof fn lemma_ascii_byte(c: char)
    requires
        c as int <= 127,
    ensures
        vstd::utf8::encode_scalar(c as u32).len() == 1,
{
}

proof fn lemma_ascii_bytes(s: Seq<char>)
    requires
        forall|k: int| 0 <= k < s.len() ==> #[trigger] s[k] as int <= 127,
    ensures
        vstd::utf8::encode_utf8(s).len() == s.len(),
    decreases s.len(),
{
    if s.len() > 0 {
        let rest = s.drop_first();
        assert forall|k: int| 0 <= k < rest.len() implies #[trigger] rest[k] as int <= 127 by {
            assert(rest[k] == s[k + 1]);
        }
        lemma_ascii_bytes(rest);
        lemma_ascii_byte(s[0]);
    }
}

proof fn lemma_no_slash(s: Seq<char>, i: int, j: int)
    requires
        0 <= i <= j <= s.len(),
        forall|k: int| i <= k < j ==> #[trigger] s[k] != '/',
    ensures
        split(s.subrange(i, j), '/') == seq![s.subrange(i, j)],
{
    let part = s.subrange(i, j);
    assert forall|k: int| 0 <= k < part.len() implies part[k] != '/' by {
        assert(part[k] == s[i + k]);
    }
    lemma_split_plain(part, '/');
}

/// What stands between two neighbouring slashes is a piece of the text.
proof fn lemma_part_is_piece(s: Seq<char>, i: int, j: int) -> (k: int)
    requires
        is_part(s, i, j),
    ensures
        0 <= k < split(s, '/').len(),
        split(s, '/')[k] == s.subrange(i, j),
{
    lemma_no_slash(s, i, j);
    let part = s.subrange(i, j);
    let upto = s.take(j);
    let k = if i == 0 {
        assert(upto =~= part);
        0
    } else {
        let head = s.take(i - 1);
        assert(upto =~= head + seq!['/'] + part);
        lemma_split_append(head, part, '/');
        split(head, '/').len() as int
    };
    assert(split(upto, '/')[k] == part);
    if j == s.len() {
        assert(upto =~= s);
    } else {
        let tail = s.skip(j + 1);
        assert(s =~= upto + seq!['/'] + tail);
        lemma_split_append(upto, tail, '/');
        assert(split(s, '/')[k] == split(upto, '/')[k]);
    }
    k
}

/// Each piece of a text stands between two neighbouring slashes.
proof fn lemma_piece_is_part(s: Seq<char>, k: int) -> (r: (int, int))
    requires
        0 <= k < split(s, '/').len(),
    ensures
        is_part(s, r.0, r.1),
        split(s, '/')[k] == s.subrange(r.0, r.1),
        k == split(s, '/').len() - 1 <==> r.1 == s.len(),
    decreases s.len(),
{
    if s.len() == 0 {
        assert(s.subrange(0, 0) =~= Seq::<char>::empty());
        (0, 0)
    } else {
        let init = s.drop_last();
        let n = s.len() as int;
        lemma_split_nonempty(init, '/');
        let pieces = split(init, '/');
        if s.last() == '/' {
            if k == pieces.len() {
                assert(s.subrange(n, n) =~= Seq::<char>::empty());
                (n, n)
            } else {
                let (i, j) = lemma_piece_is_part(init, k);
                assert(s.subrange(i, j) =~= init.subrange(i, j));
                assert forall|m: int| i <= m < j implies #[trigger] s[m] != '/' by {
                    assert(init[m] == s[m]);
                }
                if i > 0 {
                    assert(init[i - 1] == s[i - 1]);
                }
                if j < init.len() {
                    assert(init[j] == s[j]);
                }
                (i, j)
            }
        } else {
            let (i, j) = lemma_piece_is_part(init, k);
            if i > 0 {
                assert(init[i - 1] == s[i - 1]);
            }
            if k == pieces.len() - 1 {
                assert(s.subrange(i, n) =~= init.subrange(i, j).push(s.last()));
                assert forall|m: int| i <= m < n implies #[trigger] s[m] != '/' by {
                    if m < init.len() {
                        assert(init[m] == s[m]);
                    }
                }
                (i, n)
            } else {
                assert(split(s, '/')[k] == pieces[k]);
                assert(s.subrange(i, j) =~= init.subrange(i, j));
                assert forall|m: int| i <= m < j implies #[trigger] s[m] != '/' by {
                    assert(init[m] == s[m]);
                }
                assert(init[j] == s[j]);
                (i, j)
            }
        }
    }
}

/// Spelling slashes `%2f` leaves a text without any as it is, and spells a text
/// around a slash as its two sides around `%2f`.
pub proof fn law_slashes_are_spelt_out(text: &str, r: Cow<'_, str>, a: Seq<char>, b: Seq<char>)
    requires
        call_ensures(encode_slashes, (text,), r),
    ensures
        !text@.contains('/') ==> r@ == text@,
        text@ == a + seq!['/'] + b ==> r@ == encoded(a) + seq!['%', '2', 'f'] + encoded(b),
        !r@.contains('/'),
{
    if !text@.contains('/') {
        lemma_encoded_plain(text@);
    }
    if text@ == a + seq!['/'] + b {
        lemma_encoded_around(a, b);
    }
    lemma_encoded_no_slash(text@);
}

proof fn lemma_encoded_around(a: Seq<char>, b: Seq<char>)
    ensures
        encoded(a + seq!['/'] + b) == encoded(a) + seq!['%', '2', 'f'] + encoded(b),
    decreases b.len(),
{
    let whole = a + seq!['/'] + b;
    if b.len() == 0 {
        assert(whole.drop_last() =~= a);
        assert(encoded(whole) =~= encoded(a) + seq!['%', '2', 'f'] + encoded(b));
    } else {
        lemma_encoded_around(a, b.drop_last());
        assert(whole.drop_last() =~= a + seq!['/'] + b.drop_last());
        assert(encoded(whole) =~= encoded(a) + seq!['%', '2', 'f'] + encoded(b));
    }
}

proof fn lemma_encoded_no_slash(s: Seq<char>)
    ensures
        !encoded(s).contains('/'),
    decreases s.len(),
{
    if s.len() > 0 {
        let head = encoded(s.drop_last());
        lemma_encoded_no_slash(s.drop_last());
        assert forall|i: int| 0 <= i < encoded(s).len() implies encoded(s)[i] != '/' by {
            if i < head.len() {
                assert(encoded(s)[i] == head[i]);
                assert(head.contains(head[i]));
            }
        }
    }
}

/// A coordinate is accepted exactly when its type and provider are one of ten
/// pairs and its namespace, name and revision are safe segments. It is kept as
/// it was given, and what is refused is refused for its pair first.
pub proof fn law_which_coordinates_are_forwarded(
    kind: &str,
    provider: &str,
    namespace: &str,
    name: &str,
    revision: &str,
    r: Result<Coordinate, FetchError>,
)
    requires
        call_ensures(Coordinate::parse, (kind, provider, namespace, name, revision), r),
    ensures
        ({
            let pair = (kind@, provider@);
            let known = pair == ("pypi"@, "pypi"@) || pair == ("npm"@, "npmjs"@) || pair == (
                "crate"@,
                "cratesio"@,
            ) || pair == ("maven"@, "mavencentral"@) || pair == ("gem"@, "rubygems"@) || pair == (
                "nuget"@,
                "nuget"@,
            ) || pair == ("go"@, "golang"@) || pair == ("deb"@, "debian"@) || pair == (
                "composer"@,
                "packagist"@,
            ) || pair == ("pod"@, "cocoapods"@);
            let safe = safe_segment(namespace@) && safe_segment(name@) && safe_segment(revision@);
            match r {
                Ok(c) => known && safe && c.kind@ == kind@ && c.provider@ == provider@
                    && c.namespace@ == namespace@ && c.name@ == name@ && c.revision@ == revision@,
                Err(FetchError::Rejected(m)) => if known {
                    !safe && m@ == "invalid coordinate segment"@
                } else {
                    m@ == "unsupported type/provider"@
                },
                Err(_) => false,
            }
        }),
{
}

/// The key of a coordinate is its five components with a slash between each two
/// and the slashes inside the last three spelt out.
pub proof fn law_the_key_spells_the_coordinate(coord: &Coordinate, r: String)
    requires
        call_ensures(Coordinate::cache_key, (coord,), r),
        coord@.valid(),
    ensures
        split(r@, '/') == seq![
            coord.kind@,
            coord.provider@,
            encoded(coord.namespace@),
            encoded(coord.name@),
            encoded(coord.revision@),
        ],
{
    law_key_has_five_components(coord@);
}

} // verus!
