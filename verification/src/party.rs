//! Copyright holders, cleanest spelling first.
use vstd::prelude::*;
use vstd::slice::slice_subrange;

use crate::text::{chars_of, same_text, string_of};
use crate::text::{lemma_filter_places, texts};

verus! {

/// The characters that Unicode calls white space.
pub open spec fn white_space(c: char) -> bool {
    let u = c as u32;
    ||| 0x09 <= u <= 0x0d
    ||| u == 0x20
    ||| u == 0x85
    ||| u == 0xa0
    ||| u == 0x1680
    ||| 0x2000 <= u <= 0x200a
    ||| u == 0x2028
    ||| u == 0x2029
    ||| u == 0x202f
    ||| u == 0x205f
    ||| u == 0x3000
}

/// A text without the white space that it starts with.
pub open spec fn trim_start(s: Seq<char>) -> Seq<char>
    decreases s.len(),
{
    if s.len() > 0 && white_space(s[0]) {
        trim_start(s.skip(1))
    } else {
        s
    }
}

/// A text without the white space that it ends in.
pub open spec fn trim_end(s: Seq<char>) -> Seq<char>
    decreases s.len(),
{
    if s.len() > 0 && white_space(s.last()) {
        trim_end(s.drop_last())
    } else {
        s
    }
}

/// A text without white space at either end.
pub open spec fn trim(s: Seq<char>) -> Seq<char> {
    trim_end(trim_start(s))
}

pub open spec fn ascii_digit(c: char) -> bool {
    '0' <= c <= '9'
}

/// Whether the four characters from `i` on are a year from 1900 to 2099.
pub open spec fn year_at(s: Seq<char>, i: int) -> bool {
    &&& 0 <= i
    &&& i + 4 <= s.len()
    &&& (s[i] == '1' && s[i + 1] == '9' || s[i] == '2' && s[i + 1] == '0')
    &&& ascii_digit(s[i + 2])
    &&& ascii_digit(s[i + 3])
}

/// Whether a text carries a year anywhere.
pub open spec fn dated(s: Seq<char>) -> bool {
    exists|i: int| year_at(s, i)
}

/// The parties worth showing: trimmed, and not blank.
pub open spec fn cleaned(parties: Seq<Seq<char>>) -> Seq<Seq<char>> {
    parties.map_values(|p: Seq<char>| trim(p)).filter(|p: Seq<char>| p.len() > 0)
}

/// The position of the first undated party at or after `from`, or 0 where every
/// one of them carries a year.
pub open spec fn preferred_at(list: Seq<Seq<char>>, from: int) -> int
    decreases list.len() - from,
{
    if from >= list.len() {
        0
    } else if !dated(list[from]) {
        from
    } else {
        preferred_at(list, from + 1)
    }
}

/// Tells a text from every other.
pub open spec fn other_than(s: Seq<char>) -> spec_fn(Seq<char>) -> bool {
    |p: Seq<char>| p != s
}

/// The attribution parties in the order they are served: the first undated one
/// (or the first of all, where each is dated), then the others as they came.
pub open spec fn cleanest(parties: Seq<Seq<char>>) -> Seq<Seq<char>> {
    let list = cleaned(parties);
    if list.len() == 0 {
        Seq::empty()
    } else {
        let first = list[preferred_at(list, 0)];
        seq![first] + list.filter(other_than(first))
    }
}

fn is_white_space(c: char) -> (r: bool)
    ensures
        r == white_space(c),
{
    let u: u32 = c as u32;
    (0x09 <= u && u <= 0x0d) || u == 0x20 || u == 0x85 || u == 0xa0 || u == 0x1680 || (0x2000 <= u
        && u <= 0x200a) || u == 0x2028 || u == 0x2029 || u == 0x202f || u == 0x205f || u == 0x3000
}

fn trimmed(s: &str) -> (r: String)
    ensures
        r@ == trim(s@),
{
    let chars = chars_of(s);
    let mut start: usize = 0;
    let mut end: usize = chars.len();
    assert(s@.skip(0) =~= s@);
    while start < end && is_white_space(chars[start])
        invariant
            start <= end,
            end == chars@.len(),
            chars@ == s@,
            trim_start(s@) == trim_start(s@.skip(start as int)),
        decreases end - start,
    {
        assert(s@.skip(start as int).skip(1) =~= s@.skip(start + 1));
        start += 1;
    }
    assert(trim_start(s@) == s@.skip(start as int));
    assert(s@.subrange(start as int, end as int) =~= s@.skip(start as int));
    while start < end && is_white_space(chars[end - 1])
        invariant
            start <= end <= chars@.len(),
            chars@ == s@,
            trim(s@) == trim_end(s@.subrange(start as int, end as int)),
        decreases end - start,
    {
        assert(s@.subrange(start as int, end as int).drop_last() =~= s@.subrange(
            start as int,
            end - 1,
        ));
        end -= 1;
    }
    string_of(slice_subrange(chars.as_slice(), start, end))
}

/// Whether a line carries a year from 1900 to 2099.
pub fn contains_year(s: &str) -> (r: bool)
    ensures
        r == dated(s@),
{
    let chars = chars_of(s);
    let n: usize = chars.len();
    let mut i: usize = 0;
    while i < n
        invariant
            i <= n,
            n == chars@.len(),
            chars@ == s@,
            forall|j: int| 0 <= j < i ==> !year_at(s@, j),
        decreases n - i,
    {
        if n - i >= 4 {
            let a = chars[i];
            let b = chars[i + 1];
            let c = chars[i + 2];
            let d = chars[i + 3];
            if (a == '1' && b == '9' || a == '2' && b == '0') && '0' <= c && c <= '9' && '0' <= d
                && d <= '9' {
                assert(year_at(s@, i as int));
                return true;
            }
        }
        i += 1;
    }
    false
}

fn clean(parties: &[String]) -> (r: Vec<String>)
    ensures
        texts(r@) == cleaned(texts(parties@)),
{
    let mut out: Vec<String> = Vec::new();
    let ghost whole = texts(parties@).map_values(|p: Seq<char>| trim(p));
    let ghost kept = |p: Seq<char>| p.len() > 0;
    proof {
        reveal(Seq::filter);
        assert(texts(out@) =~= whole.take(0).filter(kept));
    }
    let mut i: usize = 0;
    while i < parties.len()
        invariant
            i <= parties@.len(),
            whole == texts(parties@).map_values(|p: Seq<char>| trim(p)),
            kept == (|p: Seq<char>| p.len() > 0),
            texts(out@) == whole.take(i as int).filter(kept),
        decreases parties@.len() - i,
    {
        let p = trimmed(parties[i].as_str());
        proof {
            reveal(Seq::filter);
            assert(whole.take(i + 1).drop_last() =~= whole.take(i as int));
            assert(whole[i as int] == p@);
        }
        let ghost before = out@;
        if !p.as_str().is_empty() {
            out.push(p);
            assert(texts(out@) =~= texts(before).push(p@));
        }
        i += 1;
    }
    assert(whole.take(i as int) =~= whole);
    out
}

/// Picks the most useful attribution party and puts it first.
///
/// Scanners emit every copyright line they find, so the list is usually several
/// spellings of one holder. The undated form is the canonical one; falling back
/// to the first keeps the choice stable when every line carries a year.
pub fn cleanest_party(parties: &[String]) -> (r: Vec<String>)
    ensures
        texts(r@) == cleanest(texts(parties@)),
{
    let list = clean(parties);
    let ghost lines = texts(list@);
    let mut out: Vec<String> = Vec::new();
    if list.len() == 0 {
        assert(texts(out@) =~= Seq::<Seq<char>>::empty());
        return out;
    }
    let mut at: usize = 0;
    while at < list.len() && contains_year(list[at].as_str())
        invariant
            at <= list@.len(),
            lines == texts(list@),
            preferred_at(lines, 0) == preferred_at(lines, at as int),
        decreases list@.len() - at,
    {
        at += 1;
    }
    if at == list.len() {
        at = 0;
    }
    let ghost first = lines[at as int];
    out.push(list[at].clone());
    proof {
        reveal(Seq::filter);
        assert(lines.take(0).filter(other_than(first)) =~= Seq::<Seq<char>>::empty());
        assert(texts(out@) =~= seq![first] + lines.take(0).filter(other_than(first)));
    }
    let mut i: usize = 0;
    while i < list.len()
        invariant
            i <= list@.len(),
            at < list@.len(),
            lines == texts(list@),
            first == lines[at as int],
            texts(out@) == seq![first] + lines.take(i as int).filter(other_than(first)),
        decreases list@.len() - i,
    {
        proof {
            reveal(Seq::filter);
            assert(lines.take(i + 1).drop_last() =~= lines.take(i as int));
        }
        let ghost before = out@;
        if !same_text(list[i].as_str(), list[at].as_str()) {
            out.push(list[i].clone());
            assert(texts(out@) =~= texts(before).push(lines[i as int]));
            assert(texts(out@) =~= seq![first] + lines.take(i + 1).filter(other_than(first)));
        }
        i += 1;
    }
    assert(lines.take(i as int) =~= lines);
    out
}

/// Nothing is lost and nothing is made up: the parties served are exactly the
/// cleaned ones.
pub proof fn law_parties_are_kept(parties: Seq<Seq<char>>, p: Seq<char>)
    ensures
        cleanest(parties).contains(p) <==> cleaned(parties).contains(p),
{
    let list = cleaned(parties);
    if list.len() > 0 {
        lemma_preferred_range(list, 0);
        let first = list[preferred_at(list, 0)];
        let rest = list.filter(other_than(first));
        let all = cleanest(parties);
        assert(all == seq![first] + rest);
        if all.contains(p) {
            let i = choose|i: int| 0 <= i < all.len() && all[i] == p;
            if i > 0 {
                assert(rest[i - 1] == p);
                list.lemma_filter_contains_rev(other_than(first), p);
            }
        }
        if list.contains(p) {
            if p == first {
                assert(all[0] == p);
            } else {
                let j = choose|j: int| 0 <= j < list.len() && list[j] == p;
                list.lemma_filter_contains(other_than(first), j);
                let k = choose|k: int| 0 <= k < rest.len() && rest[k] == p;
                assert(all[k + 1] == p);
            }
        }
    }
}

/// Each party served is one of the given lines, trimmed, and none is blank.
pub proof fn law_parties_are_clean(parties: Seq<Seq<char>>, i: int)
    requires
        0 <= i < cleanest(parties).len(),
    ensures
        cleanest(parties)[i].len() > 0,
        exists|j: int|
            0 <= j < parties.len() && cleanest(parties)[i] == #[trigger] trim(parties[j]),
{
    let p = cleanest(parties)[i];
    law_parties_are_kept(parties, p);
    let whole = parties.map_values(|q: Seq<char>| trim(q));
    let kept = |q: Seq<char>| q.len() > 0;
    assert(cleaned(parties).contains(p));
    let k = choose|k: int| 0 <= k < cleaned(parties).len() && cleaned(parties)[k] == p;
    whole.lemma_filter_pred(kept, k);
    whole.lemma_filter_contains_rev(kept, p);
    let j = choose|j: int| 0 <= j < whole.len() && whole[j] == p;
    assert(trim(parties[j]) == p);
}

/// An undated line comes first wherever there is one; otherwise the first line
/// does.
pub proof fn law_undated_party_comes_first(parties: Seq<Seq<char>>)
    requires
        cleaned(parties).len() > 0,
    ensures
        cleanest(parties).len() > 0,
        (exists|i: int| 0 <= i < cleaned(parties).len() && !dated(#[trigger] cleaned(parties)[i]))
            ==> !dated(cleanest(parties)[0]),
        (forall|i: int| 0 <= i < cleaned(parties).len() ==> dated(#[trigger] cleaned(parties)[i]))
            ==> cleanest(parties)[0] == cleaned(parties)[0],
{
    lemma_preferred_range(cleaned(parties), 0);
}

proof fn lemma_preferred_range(list: Seq<Seq<char>>, from: int)
    requires
        0 <= from <= list.len(),
        list.len() > 0,
    ensures
        0 <= preferred_at(list, from) < list.len(),
        (exists|i: int| from <= i < list.len() && !dated(#[trigger] list[i])) ==> !dated(
            list[preferred_at(list, from)],
        ),
        (forall|i: int| from <= i < list.len() ==> dated(#[trigger] list[i])) ==> preferred_at(
            list,
            from,
        ) == 0,
    decreases list.len() - from,
{
    if from < list.len() && dated(list[from]) {
        lemma_preferred_range(list, from + 1);
    }
}

/// The code points of white space: the ASCII controls from tab to carriage
/// return and the blank, and the blanks and line ends beyond ASCII.
pub open spec fn blank_code(u: int) -> bool {
    ||| 9 <= u <= 13
    ||| 8192 <= u <= 8202
    ||| seq![32int, 133, 160, 5760, 8232, 8233, 8239, 8287, 12288].contains(u)
}

/// Whether `t` is what is left of `s` when white space at its ends is taken
/// away and nothing else: a stretch of `s` with only white space before it and
/// behind it, that neither starts nor ends in any.
pub open spec fn stripped(s: Seq<char>, t: Seq<char>) -> bool {
    exists|a: int, b: int| #[trigger] stretches(s, t, a, b)
}

pub open spec fn stretches(s: Seq<char>, t: Seq<char>, a: int, b: int) -> bool {
    &&& 0 <= a <= b <= s.len()
    &&& t == s.subrange(a, b)
    &&& forall|i: int| 0 <= i < a ==> blank_code(#[trigger] s[i] as int)
    &&& forall|i: int| b <= i < s.len() ==> blank_code(#[trigger] s[i] as int)
    &&& t.len() > 0 ==> !blank_code(t[0] as int) && !blank_code(t.last() as int)
}

/// White space is what has the code point of some.
pub proof fn law_white_space_has_its_code_points(c: char)
    ensures
        white_space(c) <==> blank_code(c as int),
{
    let singles = seq![32int, 133, 160, 5760, 8232, 8233, 8239, 8287, 12288];
    let u = c as int;
    assert(singles[0] == 32 && singles[1] == 133 && singles[2] == 160 && singles[3] == 5760);
    assert(singles[4] == 8232 && singles[5] == 8233 && singles[6] == 8239 && singles[7] == 8287);
    assert(singles[8] == 12288);
    if singles.contains(u) {
        let k = choose|k: int| 0 <= k < singles.len() && singles[k] == u;
    }
}

/// Trimming takes white space away from the ends of a text and nothing else,
/// and a text without any there stays as it is.
pub proof fn law_trimming_takes_only_white_space(s: Seq<char>)
    ensures
        stripped(s, trim(s)),
        s.len() > 0 && !blank_code(s[0] as int) && !blank_code(s.last() as int) ==> trim(s) == s,
{
    let a = lemma_trim_start(s);
    let b = lemma_trim_end(s.skip(a));
    assert(s.skip(a).take(b) =~= s.subrange(a, a + b));
    assert forall|i: int| 0 <= i < a implies blank_code(#[trigger] s[i] as int) by {
        law_white_space_has_its_code_points(s[i]);
    }
    assert forall|i: int| a + b <= i < s.len() implies blank_code(#[trigger] s[i] as int) by {
        law_white_space_has_its_code_points(s[i]);
        assert(s.skip(a)[i - a] == s[i]);
    }
    let t = trim(s);
    if t.len() > 0 {
        law_white_space_has_its_code_points(t[0]);
        law_white_space_has_its_code_points(t.last());
        assert(t[0] == s.skip(a)[0]);
    }
    assert(stretches(s, t, a, a + b));
    if s.len() > 0 && !blank_code(s[0] as int) && !blank_code(s.last() as int) {
        if a + b < s.len() {
            assert(blank_code(s[s.len() - 1] as int));
        }
        assert(s.subrange(0, s.len() as int) =~= s);
    }
}

proof fn lemma_trim_start(s: Seq<char>) -> (a: int)
    ensures
        0 <= a <= s.len(),
        trim_start(s) == s.skip(a),
        forall|i: int| 0 <= i < a ==> white_space(#[trigger] s[i]),
        a < s.len() ==> !white_space(s[a]),
    decreases s.len(),
{
    if s.len() > 0 && white_space(s[0]) {
        let rest = s.skip(1);
        let a = lemma_trim_start(rest);
        assert(rest.skip(a) =~= s.skip(a + 1));
        assert forall|i: int| 0 <= i < a + 1 implies white_space(#[trigger] s[i]) by {
            if i > 0 {
                assert(rest[i - 1] == s[i]);
            }
        }
        if a < rest.len() {
            assert(rest[a] == s[a + 1]);
        }
        a + 1
    } else {
        assert(s.skip(0) =~= s);
        0
    }
}

proof fn lemma_trim_end(s: Seq<char>) -> (b: int)
    ensures
        0 <= b <= s.len(),
        trim_end(s) == s.take(b),
        forall|i: int| b <= i < s.len() ==> white_space(#[trigger] s[i]),
        b > 0 ==> !white_space(s[b - 1]),
    decreases s.len(),
{
    if s.len() > 0 && white_space(s.last()) {
        let init = s.drop_last();
        let b = lemma_trim_end(init);
        assert(init.take(b) =~= s.take(b));
        assert forall|i: int| b <= i < s.len() implies white_space(#[trigger] s[i]) by {
            if i < init.len() {
                assert(init[i] == s[i]);
            }
        }
        b
    } else {
        assert(s.take(s.len() as int) =~= s);
        s.len() as int
    }
}

/// There is one way to take white space away from the ends of a text.
proof fn lemma_stripped_once(s: Seq<char>, t: Seq<char>)
    requires
        stripped(s, t),
    ensures
        t == trim(s),
{
    law_trimming_takes_only_white_space(s);
    let u = trim(s);
    let (a, b) = choose|a: int, b: int| #[trigger] stretches(s, t, a, b);
    let (c, d) = choose|a: int, b: int| #[trigger] stretches(s, u, a, b);
    if t.len() > 0 {
        assert(t[0] == s[a] && t.last() == s[b - 1]);
    }
    if u.len() > 0 {
        assert(u[0] == s[c] && u.last() == s[d - 1]);
    }
    assert(t =~= u);
}

/// Whether a line carries a year: four digits in a row, with whatever before and
/// behind them, that spell a number from 1900 to 2099.
pub proof fn law_a_year_is_four_digits(line: &str, r: bool)
    requires
        call_ensures(contains_year, (line,), r),
    ensures
        r <==> exists|head: Seq<char>, year: Seq<char>, tail: Seq<char>|
            #![trigger head + year + tail]
            line@ == head + year + tail && spells_year(year),
{
    let s = line@;
    if dated(s) {
        let i = choose|i: int| year_at(s, i);
        let (head, year, tail) = (s.take(i), s.subrange(i, i + 4), s.skip(i + 4));
        assert(s =~= head + year + tail);
        assert(spells_year(year));
    }
    if exists|head: Seq<char>, year: Seq<char>, tail: Seq<char>|
        #![trigger head + year + tail]
        s == head + year + tail && spells_year(year) {
        let (head, year, tail) = choose|head: Seq<char>, year: Seq<char>, tail: Seq<char>|
            #![trigger head + year + tail]
            s == head + year + tail && spells_year(year);
        let i = head.len() as int;
        assert(s[i] == year[0] && s[i + 1] == year[1] && s[i + 2] == year[2] && s[i + 3] == year[3]);
        assert(year_at(s, i));
    }
}

/// Whether four characters are digits that spell a number from 1900 to 2099.
pub open spec fn spells_year(y: Seq<char>) -> bool {
    &&& y.len() == 4
    &&& forall|i: int| 0 <= i < 4 ==> 48 <= #[trigger] y[i] as int <= 57
    &&& 1900 <= (y[0] as int - 48) * 1000 + (y[1] as int - 48) * 100 + (y[2] as int - 48) * 10 + (
    y[3] as int - 48) <= 2099
}

/// Whether `served` is the given lines, cleaned and in the right order, where
/// `places` says which of them each one is.
///
/// Each is a line with the white space at its ends taken away, and none is
/// blank. The first is the first undated line, or the first of all where every
/// line is dated. The others follow in the order they were given, and no line is
/// left out but those that say the same as the first.
pub open spec fn arranged(
    given: Seq<Seq<char>>,
    served: Seq<Seq<char>>,
    places: Seq<int>,
) -> bool {
    &&& places.len() == served.len()
    &&& forall|k: int|
        0 <= k < places.len() ==> 0 <= #[trigger] places[k] < given.len() && stripped(
            given[places[k]],
            served[k],
        ) && served[k].len() > 0
    &&& served.len() == 0 ==> forall|p: int, t: Seq<char>|
        0 <= p < given.len() && #[trigger] stripped(given[p], t) ==> t.len() == 0
    &&& forall|k: int, m: int|
        1 <= k < m < places.len() ==> #[trigger] places[k] < #[trigger] places[m]
    &&& forall|k: int| 1 <= k < served.len() ==> #[trigger] served[k] != served[0]
    &&& forall|p: int, t: Seq<char>|
        0 <= p < given.len() && #[trigger] stripped(given[p], t) && t.len() > 0 ==> t == served[0]
            || places.skip(1).contains(p)
    &&& served.len() > 0 && !dated(served[0]) ==> forall|p: int, t: Seq<char>|
        0 <= p < places[0] && #[trigger] stripped(given[p], t) && t.len() > 0 ==> dated(t)
    &&& served.len() > 0 && dated(served[0]) ==> forall|p: int, t: Seq<char>|
        0 <= p < given.len() && #[trigger] stripped(given[p], t) && t.len() > 0 ==> dated(t)
            && places[0] <= p
}

/// The parties served are the given lines, cleaned, with the cleanest spelling
/// first and the others in the order they were given.
pub proof fn law_parties_are_arranged(parties: &[String], r: Vec<String>)
    requires
        call_ensures(cleanest_party, (parties,), r),
    ensures
        exists|places: Seq<int>| arranged(texts(parties@), texts(r@), places),
{
    let given = texts(parties@);
    let whole = given.map_values(|p: Seq<char>| trim(p));
    let kept = |p: Seq<char>| p.len() > 0;
    let list = whole.filter(kept);
    let at = lemma_filter_places(whole, kept);
    let served = cleanest(given);
    assert(list == cleaned(given));
    assert forall|p: int, t: Seq<char>|
        0 <= p < given.len() && #[trigger] stripped(given[p], t) && t.len() > 0 implies t == whole[p]
        && at.contains(p) by {
        lemma_stripped_once(given[p], t);
        assert(kept(whole[p]));
    }
    if list.len() == 0 {
        assert(arranged(given, served, Seq::empty())) by {
            assert forall|p: int, t: Seq<char>|
                0 <= p < given.len() && #[trigger] stripped(given[p], t) implies t.len() == 0 by {
                if t.len() > 0 {
                    assert(at.contains(p));
                }
            }
        }
    } else {
        lemma_preferred_range(list, 0);
        let f = preferred_at(list, 0);
        lemma_preferred_first(list, 0);
        let first = list[f];
        let rest = list.filter(other_than(first));
        let then = lemma_filter_places(list, other_than(first));
        let places = seq![at[f]] + then.map_values(|k: int| at[k]);
        assert(served == seq![first] + rest);
        assert forall|k: int| 0 <= k < places.len() implies 0 <= #[trigger] places[k] < given.len()
            && stripped(given[places[k]], served[k]) && served[k].len() > 0 by {
            let m = if k == 0 {
                f
            } else {
                then[k - 1]
            };
            assert(places[k] == at[m]);
            assert(served[k] == list[m]);
            assert(list[m] == whole[at[m]]);
            assert(kept(whole[at[m]]));
            law_trimming_takes_only_white_space(given[at[m]]);
        }
        assert forall|k: int, m: int| 1 <= k < m < places.len() implies #[trigger] places[k]
            < #[trigger] places[m] by {
            assert(then[k - 1] < then[m - 1]);
            assert(at[then[k - 1]] < at[then[m - 1]]);
        }
        assert forall|k: int| 1 <= k < served.len() implies #[trigger] served[k] != served[0] by {
            assert(served[k] == rest[k - 1]);
            assert(other_than(first)(list[then[k - 1]]));
        }
        assert forall|p: int, t: Seq<char>|
            0 <= p < given.len() && #[trigger] stripped(given[p], t) && t.len() > 0 implies t
            == served[0] || places.skip(1).contains(p) by {
            let j = choose|j: int| 0 <= j < at.len() && at[j] == p;
            assert(list[j] == t);
            if t != first {
                assert(other_than(first)(list[j]));
                assert(then.contains(j));
                let k = choose|k: int| 0 <= k < then.len() && then[k] == j;
                assert(places.skip(1)[k] == p);
            }
        }
        assert forall|p: int, t: Seq<char>|
            0 <= p < places[0] && #[trigger] stripped(given[p], t) && t.len() > 0 implies dated(t)
            by {
            let j = choose|j: int| 0 <= j < at.len() && at[j] == p;
            assert(list[j] == t);
            if j >= f {
                if j > f {
                    assert(at[f] < at[j]);
                }
            }
        }
        assert forall|p: int, t: Seq<char>|
            0 <= p < given.len() && #[trigger] stripped(given[p], t) && t.len() > 0 && dated(
                served[0],
            ) implies dated(t) && places[0] <= p by {
            let j = choose|j: int| 0 <= j < at.len() && at[j] == p;
            assert(list[j] == t);
            if j > f {
                assert(at[f] < at[j]);
            }
        }
        assert(arranged(given, served, places));
    }
}

proof fn lemma_preferred_first(list: Seq<Seq<char>>, from: int)
    requires
        0 <= from <= list.len(),
    ensures
        ({
            let f = preferred_at(list, from);
            &&& from <= f < list.len() && !dated(list[f]) && (forall|j: int|
                from <= j < f ==> dated(#[trigger] list[j])) || f == 0 && (forall|j: int|
                from <= j < list.len() ==> dated(#[trigger] list[j]))
        }),
    decreases list.len() - from,
{
    if from < list.len() && dated(list[from]) {
        lemma_preferred_first(list, from + 1);
    }
}

} // verus!
