//! Text as sequences of characters: the vocabulary the other modules share.
use vstd::prelude::*;

verus! {

/// Appends one character. `String::push` leaves what was there and puts the
/// character after it.
pub assume_specification[ String::push ](s: &mut String, c: char)
    ensures
        final(s)@ == old(s)@.push(c),
;

/// The texts held by a list of strings.
pub open spec fn texts(list: Seq<String>) -> Seq<Seq<char>> {
    list.map_values(|s: String| s@)
}

/// The text of an optional string.
pub open spec fn opt_text(s: Option<String>) -> Option<Seq<char>> {
    match s {
        Some(t) => Some(t@),
        None => None,
    }
}

/// The characters of a string, in order.
pub fn chars_of(s: &str) -> (r: Vec<char>)
    ensures
        r@ == s@,
{
    let mut out: Vec<char> = Vec::new();
    for c in it: s.chars()
        invariant
            out@ == s@.take(it.index() as int),
            it.seq() == s@,
    {
        out.push(c);
        assert(out@ =~= s@.take(it.index() + 1));
    }
    assert(out@ =~= s@);
    out
}

/// The string made of the given characters.
pub fn string_of(chars: &[char]) -> (r: String)
    ensures
        r@ == chars@,
{
    let mut out = String::new();
    let mut i: usize = 0;
    while i < chars.len()
        invariant
            i <= chars@.len(),
            out@ == chars@.take(i as int),
        decreases chars@.len() - i,
    {
        out.push(chars[i]);
        i += 1;
        assert(out@ =~= chars@.take(i as int));
    }
    assert(out@ =~= chars@);
    out
}

/// Whether two strings hold the same text.
pub fn same_text(a: &str, b: &str) -> (r: bool)
    ensures
        r == (a@ == b@),
{
    let x = a.as_bytes();
    let y = b.as_bytes();
    proof {
        vstd::utf8::encode_utf8_decode_utf8(a@);
        vstd::utf8::encode_utf8_decode_utf8(b@);
    }
    if x.len() != y.len() {
        return false;
    }
    let mut i: usize = 0;
    while i < x.len()
        invariant
            i <= x@.len(),
            x@.len() == y@.len(),
            x@ == vstd::utf8::encode_utf8(a@),
            y@ == vstd::utf8::encode_utf8(b@),
            forall|j: int| 0 <= j < i ==> x@[j] == y@[j],
        decreases x@.len() - i,
    {
        if x[i] != y[i] {
            return false;
        }
        i += 1;
    }
    assert(x@ =~= y@);
    true
}

/// The decimal digit for a value below ten.
pub open spec fn digit(d: int) -> char {
    (48 + d) as char
}

/// A number in decimal, without sign or leading zeros.
pub open spec fn decimal(n: nat) -> Seq<char>
    decreases n,
{
    if n < 10 {
        seq![digit(n as int)]
    } else {
        decimal(n / 10).push(digit((n % 10) as int))
    }
}

fn digit_char(d: u64) -> (c: char)
    requires
        d < 10,
    ensures
        c == digit(d as int),
{
    (48u8 + d as u8) as char
}

/// Appends a number in decimal.
pub fn push_decimal(out: &mut String, n: u64)
    ensures
        final(out)@ == old(out)@ + decimal(n as nat),
    decreases n,
{
    if n >= 10 {
        push_decimal(out, n / 10);
    }
    out.push(digit_char(n % 10));
    assert(out@ =~= old(out)@ + decimal(n as nat));
}

/// The pieces of a text between separators. There is always at least one
/// piece, and between two neighbouring separators stands an empty one.
pub open spec fn split(s: Seq<char>, sep: char) -> Seq<Seq<char>>
    decreases s.len(),
{
    if s.len() == 0 {
        seq![Seq::empty()]
    } else {
        let pieces = split(s.drop_last(), sep);
        if s.last() == sep {
            pieces.push(Seq::empty())
        } else {
            pieces.drop_last().push(pieces.last().push(s.last()))
        }
    }
}

/// The position of the first character at or after `from` that is one of
/// `stops`, or the end of the text where there is none.
pub open spec fn first_of(s: Seq<char>, stops: Seq<char>, from: int) -> int
    decreases s.len() - from,
{
    if from >= s.len() || stops.contains(s[from]) {
        from
    } else {
        first_of(s, stops, from + 1)
    }
}

/// The text up to its first character that is one of `stops`.
pub open spec fn before_first(s: Seq<char>, stops: Seq<char>) -> Seq<char> {
    s.take(first_of(s, stops, 0))
}

/// The position behind the last `c` before `end`, or 0 where there is none.
pub open spec fn behind_last(s: Seq<char>, c: char, end: int) -> int
    decreases end,
{
    if end <= 0 || s[end - 1] == c {
        end
    } else {
        behind_last(s, c, end - 1)
    }
}

/// The text behind its last `c`, or all of it where there is none.
pub open spec fn after_last(s: Seq<char>, c: char) -> Seq<char> {
    s.skip(behind_last(s, c, s.len() as int))
}

/// The first position at or after `from` at which `pattern` stands.
pub open spec fn find(s: Seq<char>, pattern: Seq<char>, from: int) -> Option<int>
    decreases s.len() - from + 1,
{
    if from + pattern.len() > s.len() {
        None
    } else if s.subrange(from, from + pattern.len()) == pattern {
        Some(from)
    } else {
        find(s, pattern, from + 1)
    }
}

/// Whether a text ends in another.
pub open spec fn ends_with(s: Seq<char>, suffix: Seq<char>) -> bool {
    s.len() >= suffix.len() && s.skip(s.len() - suffix.len()) == suffix
}

/// A letter from `A` to `Z` in lower case; any other character as it is.
pub open spec fn lower_char(c: char) -> char {
    if 'A' <= c <= 'Z' {
        (c as u32 + 32) as char
    } else {
        c
    }
}

/// A text with its letters from `A` to `Z` in lower case.
pub open spec fn lower(s: Seq<char>) -> Seq<char> {
    s.map_values(|c: char| lower_char(c))
}

pub fn contains_char(s: &[char], c: char) -> (r: bool)
    ensures
        r == s@.contains(c),
{
    let mut i: usize = 0;
    while i < s.len()
        invariant
            i <= s@.len(),
            forall|j: int| 0 <= j < i ==> s@[j] != c,
        decreases s@.len() - i,
    {
        if s[i] == c {
            assert(s@[i as int] == c);
            return true;
        }
        i += 1;
    }
    false
}

pub fn first_of_chars(s: &[char], stops: &[char]) -> (r: usize)
    ensures
        r == first_of(s@, stops@, 0),
        r <= s@.len(),
{
    let mut i: usize = 0;
    while i < s.len()
        invariant
            i <= s@.len(),
            first_of(s@, stops@, 0) == first_of(s@, stops@, i as int),
        decreases s@.len() - i,
    {
        if contains_char(stops, s[i]) {
            return i;
        }
        i += 1;
    }
    i
}

pub fn behind_last_char(s: &[char], c: char) -> (r: usize)
    ensures
        r == behind_last(s@, c, s@.len() as int),
        r <= s@.len(),
{
    let mut i: usize = s.len();
    while i > 0
        invariant
            i <= s@.len(),
            behind_last(s@, c, s@.len() as int) == behind_last(s@, c, i as int),
        decreases i,
    {
        if s[i - 1] == c {
            return i;
        }
        i -= 1;
    }
    i
}

pub fn equal_chars(s: &[char], t: &[char]) -> (r: bool)
    ensures
        r == (s@ == t@),
{
    if s.len() != t.len() {
        return false;
    }
    let mut i: usize = 0;
    while i < s.len()
        invariant
            i <= s@.len(),
            s@.len() == t@.len(),
            forall|j: int| 0 <= j < i ==> s@[j] == t@[j],
        decreases s@.len() - i,
    {
        if s[i] != t[i] {
            return false;
        }
        i += 1;
    }
    assert(s@ =~= t@);
    true
}

pub fn find_chars(s: &[char], pattern: &[char]) -> (r: Option<usize>)
    ensures
        match r {
            Some(i) => find(s@, pattern@, 0) == Some(i as int) && i + pattern@.len() <= s@.len(),
            None => find(s@, pattern@, 0) is None,
        },
{
    if pattern.len() > s.len() {
        return None;
    }
    let mut i: usize = 0;
    while i <= s.len() - pattern.len()
        invariant
            pattern@.len() <= s@.len(),
            i <= s@.len() - pattern@.len() + 1,
            find(s@, pattern@, 0) == find(s@, pattern@, i as int),
        decreases s@.len() - pattern@.len() + 1 - i,
    {
        let window = vstd::slice::slice_subrange(s, i, i + pattern.len());
        if equal_chars(window, pattern) {
            return Some(i);
        }
        if i == s.len() - pattern.len() {
            assert(find(s@, pattern@, i + 1) is None);
            return None;
        }
        i += 1;
    }
    None
}

pub fn ends_with_chars(s: &[char], suffix: &[char]) -> (r: bool)
    ensures
        r == ends_with(s@, suffix@),
{
    if s.len() < suffix.len() {
        return false;
    }
    let tail = vstd::slice::slice_subrange(s, s.len() - suffix.len(), s.len());
    assert(tail@ =~= s@.skip(s@.len() - suffix@.len()));
    equal_chars(tail, suffix)
}

pub fn lower_chars(s: &[char]) -> (r: Vec<char>)
    ensures
        r@ == lower(s@),
{
    let mut out: Vec<char> = Vec::new();
    let mut i: usize = 0;
    while i < s.len()
        invariant
            i <= s@.len(),
            out@ == lower(s@.take(i as int)),
        decreases s@.len() - i,
    {
        let c = s[i];
        if 'A' <= c && c <= 'Z' {
            out.push((c as u8 + 32) as char);
        } else {
            out.push(c);
        }
        i += 1;
        assert(out@ =~= lower(s@.take(i as int)));
    }
    assert(s@.take(i as int) =~= s@);
    out
}

pub proof fn lemma_split_plain(s: Seq<char>, sep: char)
    requires
        !s.contains(sep),
    ensures
        split(s, sep) == seq![s],
    decreases s.len(),
{
    if s.len() > 0 {
        assert(s[s.len() - 1] == s.last());
        assert forall|i: int| 0 <= i < s.len() - 1 implies s.drop_last()[i] != sep by {
            assert(s[i] != sep);
        }
        lemma_split_plain(s.drop_last(), sep);
        assert(s.drop_last().push(s.last()) =~= s);
        assert(split(s, sep) =~= seq![s]);
    } else {
        assert(s =~= Seq::<char>::empty());
    }
}

pub proof fn lemma_split_nonempty(s: Seq<char>, sep: char)
    ensures
        split(s, sep).len() > 0,
    decreases s.len(),
{
    if s.len() > 0 {
        lemma_split_nonempty(s.drop_last(), sep);
    }
}

pub proof fn lemma_split_append(a: Seq<char>, b: Seq<char>, sep: char)
    ensures
        split(a + seq![sep] + b, sep) == split(a, sep) + split(b, sep),
    decreases b.len(),
{
    let whole = a + seq![sep] + b;
    if b.len() == 0 {
        assert(whole =~= a.push(sep));
        assert(whole.drop_last() =~= a);
        assert(split(whole, sep) =~= split(a, sep) + split(b, sep));
    } else {
        lemma_split_append(a, b.drop_last(), sep);
        lemma_split_nonempty(b.drop_last(), sep);
        assert(whole.drop_last() =~= a + seq![sep] + b.drop_last());
        assert(split(whole, sep) =~= split(a, sep) + split(b, sep));
    }
}

/// A number below ten is spelt by the character that far behind `0`, and
/// spelling a digit behind a number spells ten times the number and the digit.
pub proof fn law_decimal_is_positional(n: nat, d: nat)
    requires
        d < 10,
    ensures
        decimal(d).len() == 1,
        decimal(d)[0] as int == 48 + d,
        n > 0 ==> decimal(10 * n + d) == decimal(n) + decimal(d),
{
    if n > 0 {
        let m = 10 * n + d;
        assert(m / 10 == n && m % 10 == d);
        assert(decimal(m) =~= decimal(n) + decimal(d));
    }
}

/// The text before the first stop is what stands before it, and all of a text
/// that holds none.
pub proof fn law_before_first_stops_at_the_first(
    head: Seq<char>,
    stop: char,
    tail: Seq<char>,
    stops: Seq<char>,
)
    requires
        forall|i: int| 0 <= i < head.len() ==> !stops.contains(#[trigger] head[i]),
    ensures
        before_first(head, stops) == head,
        first_of(head, stops, 0) == head.len(),
        stops.contains(stop) ==> before_first(head + seq![stop] + tail, stops) == head,
        stops.contains(stop) ==> first_of(head + seq![stop] + tail, stops, 0) == head.len(),
{
    lemma_first_of(head, stops, 0);
    assert(head.take(head.len() as int) =~= head);
    if stops.contains(stop) {
        let s = head + seq![stop] + tail;
        assert forall|i: int| 0 <= i < head.len() implies !stops.contains(#[trigger] s[i]) by {
            assert(s[i] == head[i]);
        }
        assert(s[head.len() as int] == stop);
        lemma_first_of_at(s, stops, 0, head.len() as int);
        assert(s.take(head.len() as int) =~= head);
    }
}

proof fn lemma_first_of(s: Seq<char>, stops: Seq<char>, from: int)
    requires
        0 <= from <= s.len(),
        forall|i: int| 0 <= i < s.len() ==> !stops.contains(#[trigger] s[i]),
    ensures
        first_of(s, stops, from) == s.len(),
    decreases s.len() - from,
{
    if from < s.len() {
        lemma_first_of(s, stops, from + 1);
    }
}

proof fn lemma_first_of_at(s: Seq<char>, stops: Seq<char>, from: int, at: int)
    requires
        0 <= from <= at < s.len(),
        stops.contains(s[at]),
        forall|i: int| 0 <= i < at ==> !stops.contains(#[trigger] s[i]),
    ensures
        first_of(s, stops, from) == at,
    decreases at - from,
{
    if from < at {
        lemma_first_of_at(s, stops, from + 1, at);
    }
}

/// The text after the last `c` is what stands behind it, and all of a text that
/// holds none.
pub proof fn law_after_last_starts_behind_the_last(head: Seq<char>, c: char, tail: Seq<char>)
    requires
        !tail.contains(c),
    ensures
        after_last(tail, c) == tail,
        after_last(head + seq![c] + tail, c) == tail,
{
    lemma_behind_last(tail, c, tail.len() as int, 0);
    assert(tail.skip(0) =~= tail);
    let s = head + seq![c] + tail;
    assert forall|i: int| head.len() + 1 <= i < s.len() implies #[trigger] s[i] != c by {
        assert(s[i] == tail[i - head.len() - 1]);
    }
    lemma_behind_last(s, c, s.len() as int, head.len() as int + 1);
    assert(s.skip(head.len() as int + 1) =~= tail);
}

proof fn lemma_behind_last(s: Seq<char>, c: char, end: int, at: int)
    requires
        0 <= at <= end <= s.len(),
        at > 0 ==> s[at - 1] == c,
        forall|i: int| at <= i < end ==> #[trigger] s[i] != c,
    ensures
        behind_last(s, c, end) == at,
    decreases end - at,
{
    if at < end {
        lemma_behind_last(s, c, end - 1, at);
    }
}

/// A pattern is found where it stands first, and not found only where it stands
/// nowhere.
pub proof fn law_the_first_occurrence_is_found(s: Seq<char>, pattern: Seq<char>, from: int)
    requires
        0 <= from,
    ensures
        match find(s, pattern, from) {
            Some(i) => from <= i && i + pattern.len() <= s.len() && s.subrange(
                i,
                i + pattern.len(),
            ) == pattern && forall|j: int|
                from <= j < i ==> #[trigger] s.subrange(j, j + pattern.len()) != pattern,
            None => forall|j: int|
                from <= j && j + pattern.len() <= s.len() ==> #[trigger] s.subrange(
                    j,
                    j + pattern.len(),
                ) != pattern,
        },
    decreases s.len() - from + 1,
{
    if from + pattern.len() <= s.len() && s.subrange(from, from + pattern.len()) != pattern {
        law_the_first_occurrence_is_found(s, pattern, from + 1);
    }
}

/// A text ends in what was put at its end, and in nothing else.
pub proof fn law_a_text_ends_in_its_end(s: Seq<char>, head: Seq<char>, tail: Seq<char>)
    ensures
        ends_with(head + tail, tail),
        ends_with(s, tail) ==> s == s.take(s.len() - tail.len()) + tail,
{
    assert((head + tail).skip(head.len() as int) =~= tail);
    if ends_with(s, tail) {
        assert(s =~= s.take(s.len() - tail.len()) + s.skip(s.len() - tail.len()));
    }
}

/// Lower case moves the letters from `A` to `Z` by 32 places and nothing else.
pub proof fn law_lower_case_moves_capitals_only(s: Seq<char>, i: int)
    requires
        0 <= i < s.len(),
    ensures
        lower(s).len() == s.len(),
        65 <= s[i] as int <= 90 ==> lower(s)[i] as int == s[i] as int + 32,
        !(65 <= s[i] as int <= 90) ==> lower(s)[i] == s[i],
{
}

/// Where the items of a list stand that a test lets through: in the list's
/// order, and every one of them.
pub proof fn lemma_filter_places<A>(list: Seq<A>, test: spec_fn(A) -> bool) -> (places: Seq<int>)
    ensures
        places.len() == list.filter(test).len(),
        forall|k: int|
            0 <= k < places.len() ==> 0 <= #[trigger] places[k] < list.len() && test(
                list[places[k]],
            ) && list.filter(test)[k] == list[places[k]],
        forall|k: int, m: int| 0 <= k < m < places.len() ==> #[trigger] places[k] < #[trigger] places[m],
        forall|i: int| 0 <= i < list.len() && test(#[trigger] list[i]) ==> places.contains(i),
    decreases list.len(),
{
    reveal(Seq::filter);
    if list.len() == 0 {
        Seq::empty()
    } else {
        let init = list.drop_last();
        let before = lemma_filter_places(init, test);
        let n = list.len() - 1;
        assert(list[n] == list.last());
        if test(list.last()) {
            let places = before.push(n);
            assert forall|i: int| 0 <= i < list.len() && test(#[trigger] list[i]) implies places.contains(
                i,
            ) by {
                if i < n {
                    assert(init[i] == list[i]);
                    assert(before.contains(i));
                    let k = choose|k: int| 0 <= k < before.len() && before[k] == i;
                    assert(places[k] == i);
                } else {
                    assert(places[before.len() as int] == i);
                }
            }
            assert forall|k: int| 0 <= k < places.len() implies 0 <= #[trigger] places[k]
                < list.len() && test(list[places[k]]) && list.filter(test)[k] == list[places[k]] by {
                if k < before.len() {
                    assert(init[before[k]] == list[before[k]]);
                }
            }
            places
        } else {
            assert forall|i: int| 0 <= i < list.len() && test(#[trigger] list[i]) implies before.contains(
                i,
            ) by {
                assert(init[i] == list[i]);
            }
            assert forall|k: int| 0 <= k < before.len() implies 0 <= #[trigger] before[k]
                < list.len() && test(list[before[k]]) && list.filter(test)[k] == list[before[k]] by {
                assert(init[before[k]] == list[before[k]]);
            }
            before
        }
    }
}

} // verus!
