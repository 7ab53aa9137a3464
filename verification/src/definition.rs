//! What is kept of an upstream definition.
//!
//! A definition carries a per-file analysis: lodash 4.17.21 is 189KB. Consumers
//! use four fields out of it, totalling about 440 bytes, so the projection
//! happens here, once, rather than in every client on every lookup.
use vstd::prelude::*;

use crate::json::{member, pointer};
use crate::party::cleanest_party;
use crate::text::same_text;
use crate::vcs::is_vcs_url;
use crate::json::{json_of, jsons, plain_pointer, Json};
use crate::party::cleanest;
use crate::text::{lemma_split_append, lemma_split_plain, opt_text, split, texts};
use crate::vcs::vcs_url;

verus! {

/// The projection clients actually consume.
#[derive(Debug, PartialEq)]
pub struct Definition {
    /// SPDX expression as declared, or None when nothing was found.
    pub declared: Option<String>,
    /// Curated copyright holders.
    pub parties: Vec<String>,
    pub homepage: Option<String>,
    /// Only when it looks like a repository. Upstream returns a sources-jar
    /// download for Maven and a project page for PyPI, neither of which is a
    /// repository however much the field name suggests otherwise.
    pub source_url: Option<String>,
    /// Whether any tool has actually looked at this coordinate.
    ///
    /// The caller keys the TTL off this. An unharvested definition is not "no
    /// licence", it is "not yet examined", and it will change.
    pub harvested: bool,
    pub score: u64,
}

/// What a [`Definition`] says.
#[verifier::ext_equal]
pub struct Summary {
    pub declared: Option<Seq<char>>,
    pub parties: Seq<Seq<char>>,
    pub homepage: Option<Seq<char>>,
    pub source_url: Option<Seq<char>>,
    pub harvested: bool,
    pub score: u64,
}

impl View for Definition {
    type V = Summary;

    open spec fn view(&self) -> Summary {
        Summary {
            declared: opt_text(self.declared),
            parties: texts(self.parties@),
            homepage: opt_text(self.homepage),
            source_url: opt_text(self.source_url),
            harvested: self.harvested,
            score: self.score,
        }
    }
}

impl Clone for Definition {
    fn clone(&self) -> (r: Self)
        ensures
            r@ == self@,
    {
        let parties = copy_texts(&self.parties);
        Definition {
            declared: copy_text(&self.declared),
            parties,
            homepage: copy_text(&self.homepage),
            source_url: copy_text(&self.source_url),
            harvested: self.harvested,
            score: self.score,
        }
    }
}

fn copy_text(s: &Option<String>) -> (r: Option<String>)
    ensures
        opt_text(r) == opt_text(*s),
{
    match s {
        Some(t) => Some(t.clone()),
        None => None,
    }
}

fn copy_texts(list: &Vec<String>) -> (r: Vec<String>)
    ensures
        texts(r@) == texts(list@),
{
    let mut out: Vec<String> = Vec::new();
    let mut i: usize = 0;
    while i < list.len()
        invariant
            i <= list@.len(),
            texts(out@) == texts(list@).take(i as int),
        decreases list@.len() - i,
    {
        let ghost before = out@;
        out.push(list[i].clone());
        i += 1;
        assert(texts(out@) =~= texts(before).push(list@[i - 1]@));
        assert(texts(out@) =~= texts(list@).take(i as int));
    }
    assert(texts(list@).take(i as int) =~= texts(list@));
    out
}

/// What a document says in the places the projection reads, before any of it is
/// judged.
pub struct Findings {
    /// The declared licence expression.
    pub declared: Option<String>,
    /// The attribution parties.
    pub parties: Vec<String>,
    /// The project's website.
    pub website: Option<String>,
    /// The source location's URL.
    pub location: Option<String>,
    /// How many tools looked at the coordinate, where the document lists them.
    pub tools: Option<usize>,
    /// The effective score.
    pub score: Option<u64>,
}

/// What [`Findings`] say.
#[verifier::ext_equal]
pub struct Found {
    pub declared: Option<Seq<char>>,
    pub parties: Seq<Seq<char>>,
    pub website: Option<Seq<char>>,
    pub location: Option<Seq<char>>,
    pub tools: Option<nat>,
    pub score: Option<u64>,
}

impl View for Findings {
    type V = Found;

    open spec fn view(&self) -> Found {
        Found {
            declared: opt_text(self.declared),
            parties: texts(self.parties@),
            website: opt_text(self.website),
            location: opt_text(self.location),
            tools: match self.tools {
                Some(n) => Some(n as nat),
                None => None,
            },
            score: self.score,
        }
    }
}

/// The text of an optional document that is a string.
pub open spec fn text_in(doc: Option<Json>) -> Option<Seq<char>> {
    match doc {
        Some(d) => d.text(),
        None => None,
    }
}

/// The items of an optional document that is an array.
pub open spec fn items_in(doc: Option<Json>) -> Option<Seq<Json>> {
    match doc {
        Some(d) => d.items(),
        None => None,
    }
}

/// The strings among the items of an array.
pub open spec fn strings_among(items: Seq<Json>) -> Seq<Seq<char>> {
    items.filter_map(|item: Json| item.text())
}

/// Where a document keeps its attribution parties. They live under the core
/// facet, not directly under the licence: upstream leaves the latter unset, and
/// reading it alone yields nothing at all.
pub open spec fn parties_in(licensed: Option<Json>) -> Option<Json> {
    match licensed {
        Some(l) => match l.descend(
            seq!["facets"@, "core"@, "attribution"@, "parties"@],
        ) {
            Some(parties) => Some(parties),
            None => l.descend(seq!["attribution"@, "parties"@]),
        },
        None => None,
    }
}

/// What a document says in the places the projection reads.
pub open spec fn found_in(doc: Json) -> Found {
    let licensed = doc.member("licensed"@);
    let described = doc.member("described"@);
    Found {
        declared: match licensed {
            Some(l) => text_in(l.member("declared"@)),
            None => None,
        },
        parties: match items_in(parties_in(licensed)) {
            Some(items) => strings_among(items),
            None => Seq::empty(),
        },
        website: match described {
            Some(d) => text_in(d.member("projectWebsite"@)),
            None => None,
        },
        location: match described {
            Some(d) => text_in(d.descend(seq!["sourceLocation"@, "url"@])),
            None => None,
        },
        tools: match described {
            Some(d) => match items_in(d.member("tools"@)) {
                Some(items) => Some(items.len()),
                None => None,
            },
            None => None,
        },
        score: match doc.descend(seq!["scores"@, "effective"@]) {
            Some(s) => s.unsigned(),
            None => None,
        },
    }
}

/// The projection of what a document says.
pub open spec fn summary_of(found: Found) -> Summary {
    Summary {
        declared: match found.declared {
            Some(d) => if d.len() > 0 && d != "NOASSERTION"@ {
                Some(d)
            } else {
                None
            },
            None => None,
        },
        parties: cleanest(found.parties),
        homepage: match found.website {
            Some(w) => if w.len() > 0 {
                Some(w)
            } else {
                None
            },
            None => None,
        },
        source_url: match found.location {
            Some(u) => if vcs_url(u) {
                Some(u)
            } else {
                None
            },
            None => None,
        },
        harvested: match found.tools {
            Some(n) => n > 0,
            None => false,
        },
        score: match found.score {
            Some(s) => s,
            None => 0,
        },
    }
}

/// Judges what a document says: an empty or withheld licence is none, an empty
/// website is none, a location counts only when it is a repository, and tools
/// are the evidence that something looked.
pub fn project(findings: Findings) -> (r: Definition)
    ensures
        r@ == summary_of(findings@),
{
    let declared = match findings.declared {
        Some(d) => if d.as_str().is_empty() || same_text(d.as_str(), "NOASSERTION") {
            None
        } else {
            Some(d)
        },
        None => None,
    };
    let parties = cleanest_party(findings.parties.as_slice());
    let homepage = match findings.website {
        Some(w) => if w.as_str().is_empty() {
            None
        } else {
            Some(w)
        },
        None => None,
    };
    let source_url = match findings.location {
        Some(u) => if is_vcs_url(u.as_str()) {
            Some(u)
        } else {
            None
        },
        None => None,
    };
    // An unharvested coordinate still returns 200 with a score around 35 and no
    // tools.
    let harvested = match findings.tools {
        Some(n) => n > 0,
        None => false,
    };
    let score: u64 = match findings.score {
        Some(s) => s,
        None => 0,
    };
    Definition { declared, parties, homepage, source_url, harvested, score }
}

fn text_of(doc: Option<&serde_json::Value>) -> (r: Option<String>)
    ensures
        opt_text(r) == text_in(crate::json::opt_json(doc)),
{
    match doc {
        Some(d) => match d.as_str() {
            Some(s) => Some(s.to_owned()),
            None => None,
        },
        None => None,
    }
}

fn strings_of(list: &Vec<serde_json::Value>) -> (r: Vec<String>)
    ensures
        texts(r@) == strings_among(jsons(list@)),
{
    let ghost items = jsons(list@);
    let ghost f = |item: Json| item.text();
    let mut out: Vec<String> = Vec::new();
    let mut i: usize = 0;
    assert(texts(out@) =~= items.take(0).filter_map(f));
    while i < list.len()
        invariant
            i <= list@.len(),
            items == jsons(list@),
            f == (|item: Json| item.text()),
            texts(out@) == items.take(i as int).filter_map(f),
        decreases list@.len() - i,
    {
        let ghost before = out@;
        assert(items.take(i + 1).drop_last() =~= items.take(i as int));
        assert(items[i as int] == json_of(list@[i as int]));
        match list[i].as_str() {
            Some(s) => {
                out.push(s.to_owned());
                assert(texts(out@) =~= texts(before) + seq![s@]);
            },
            None => {},
        }
        i += 1;
    }
    assert(items.take(i as int) =~= items);
    out
}

proof fn lemma_pointers()
    ensures
        plain_pointer("/facets/core/attribution/parties"@),
        split("/facets/core/attribution/parties"@, '/').skip(1) == seq![
            "facets"@,
            "core"@,
            "attribution"@,
            "parties"@,
        ],
        plain_pointer("/attribution/parties"@),
        split("/attribution/parties"@, '/').skip(1) == seq!["attribution"@, "parties"@],
        plain_pointer("/sourceLocation/url"@),
        split("/sourceLocation/url"@, '/').skip(1) == seq!["sourceLocation"@, "url"@],
        plain_pointer("/scores/effective"@),
        split("/scores/effective"@, '/').skip(1) == seq!["scores"@, "effective"@],
{
    reveal_strlit("/facets/core/attribution/parties");
    reveal_strlit("/attribution/parties");
    reveal_strlit("/sourceLocation/url");
    reveal_strlit("/scores/effective");
    reveal_strlit("facets");
    reveal_strlit("core");
    reveal_strlit("attribution");
    reveal_strlit("parties");
    reveal_strlit("sourceLocation");
    reveal_strlit("url");
    reveal_strlit("scores");
    reveal_strlit("effective");
    lemma_two_tokens("attribution"@, "parties"@);
    lemma_two_tokens("sourceLocation"@, "url"@);
    lemma_two_tokens("scores"@, "effective"@);
    assert("/attribution/parties"@ =~= seq!['/'] + "attribution"@ + seq!['/'] + "parties"@);
    assert("/sourceLocation/url"@ =~= seq!['/'] + "sourceLocation"@ + seq!['/'] + "url"@);
    assert("/scores/effective"@ =~= seq!['/'] + "scores"@ + seq!['/'] + "effective"@);
    lemma_two_tokens("facets"@, "core"@);
    let head = seq!['/'] + "facets"@ + seq!['/'] + "core"@;
    let head3 = head + seq!['/'] + "attribution"@;
    lemma_split_append(head, "attribution"@, '/');
    lemma_split_append(head3, "parties"@, '/');
    lemma_split_plain("attribution"@, '/');
    lemma_split_plain("parties"@, '/');
    assert("/facets/core/attribution/parties"@ =~= head3 + seq!['/'] + "parties"@);
    assert(split("/facets/core/attribution/parties"@, '/').skip(1) =~= seq![
        "facets"@,
        "core"@,
        "attribution"@,
        "parties"@,
    ]);
}

proof fn lemma_two_tokens(a: Seq<char>, b: Seq<char>)
    requires
        !a.contains('/'),
        !b.contains('/'),
    ensures
        split(seq!['/'] + a + seq!['/'] + b, '/') == seq![Seq::empty(), a, b],
        split(seq!['/'] + a + seq!['/'] + b, '/').skip(1) == seq![a, b],
{
    let none = Seq::<char>::empty();
    lemma_split_plain(none, '/');
    lemma_split_plain(a, '/');
    lemma_split_plain(b, '/');
    lemma_split_append(none, a, '/');
    assert(none + seq!['/'] + a =~= seq!['/'] + a);
    lemma_split_append(seq!['/'] + a, b, '/');
    assert(split(seq!['/'] + a + seq!['/'] + b, '/') =~= seq![none, a, b]);
    assert(seq![none, a, b].skip(1) =~= seq![a, b]);
}

/// Reads the places of an upstream document that the projection is made from.
pub fn read_findings(doc: &serde_json::Value) -> (r: Findings)
    ensures
        r@ == found_in(json_of(*doc)),
{
    proof {
        lemma_pointers();
    }
    let licensed = member(doc, "licensed");
    let described = member(doc, "described");
    let declared = match licensed {
        Some(l) => text_of(member(l, "declared")),
        None => None,
    };
    let attribution = match licensed {
        Some(l) => match pointer(l, "/facets/core/attribution/parties") {
            Some(p) => Some(p),
            None => pointer(l, "/attribution/parties"),
        },
        None => None,
    };
    let listed = match attribution {
        Some(p) => p.as_array(),
        None => None,
    };
    let parties = match listed {
        Some(list) => strings_of(list),
        None => Vec::new(),
    };
    let website = match described {
        Some(d) => text_of(member(d, "projectWebsite")),
        None => None,
    };
    let location = match described {
        Some(d) => text_of(pointer(d, "/sourceLocation/url")),
        None => None,
    };
    let tools: Option<usize> = match described {
        Some(d) => match member(d, "tools") {
            Some(t) => match t.as_array() {
                Some(list) => Some(list.len()),
                None => None,
            },
            None => None,
        },
        None => None,
    };
    let score: Option<u64> = match pointer(doc, "/scores/effective") {
        Some(s) => s.as_u64(),
        None => None,
    };
    let r = Findings { declared, parties, website, location, tools, score };
    assert(r@ =~= found_in(json_of(*doc)));
    r
}

/// Projects an upstream definition down to the fields consumers read.
pub fn normalise(doc: &serde_json::Value) -> (r: Definition)
    ensures
        r@ == summary_of(found_in(json_of(*doc))),
{
    project(read_findings(doc))
}

/// What is served is worth serving: no licence is empty or withheld, no homepage
/// is empty, and a source location is a repository.
pub proof fn law_what_is_served_says_something(found: Found)
    ensures
        summary_of(found).declared matches Some(d) ==> d.len() > 0 && d != "NOASSERTION"@,
        summary_of(found).homepage matches Some(h) ==> h.len() > 0,
        summary_of(found).source_url matches Some(u) ==> vcs_url(u),
{
}

/// A coordinate counts as examined exactly when the document lists a tool that
/// looked at it, whatever else it says.
pub proof fn law_tools_are_the_evidence(doc: Json)
    ensures
        summary_of(found_in(doc)).harvested <==> (doc.member("described"@) matches Some(d)
            && items_in(d.member("tools"@)) matches Some(items) && items.len() > 0),
{
}

proof fn lemma_descend(doc: Json, first: Seq<char>, rest: Seq<Seq<char>>)
    ensures
        doc.descend(seq![first] + rest) == match doc.member(first) {
            Some(child) => child.descend(rest),
            None => None,
        },
{
    assert((seq![first] + rest).skip(1) =~= rest);
}

proof fn lemma_descend_one(doc: Json, key: Seq<char>)
    ensures
        doc.descend(seq![key]) == doc.member(key),
{
    lemma_descend(doc, key, seq![]);
    assert(seq![key] + seq![] =~= seq![key]);
}

/// Whether a document holds this text at the end of these keys.
pub open spec fn says(doc: Json, keys: Seq<Seq<char>>, text: Seq<char>) -> bool {
    doc.descend(keys) == Some(Json::Text(text))
}

/// The licence is what the document declares, in full, unless that is nothing or
/// a refusal to say; and there is none where the document declares no text.
pub proof fn law_the_licence_is_the_declared_one(
    doc: &serde_json::Value,
    r: Definition,
    text: Seq<char>,
)
    requires
        call_ensures(normalise, (doc,), r),
    ensures
        opt_text(r.declared) == Some(text) <==> says(
            json_of(*doc),
            seq!["licensed"@, "declared"@],
            text,
        ) && text.len() > 0 && text != "NOASSERTION"@,
{
    let tree = json_of(*doc);
    lemma_two_keys(tree, "licensed"@, "declared"@);
}

proof fn lemma_two_keys(doc: Json, a: Seq<char>, b: Seq<char>)
    ensures
        doc.descend(seq![a, b]) == match doc.member(a) {
            Some(child) => child.member(b),
            None => None,
        },
{
    lemma_descend(doc, a, seq![b]);
    assert(seq![a] + seq![b] =~= seq![a, b]);
    if let Some(child) = doc.member(a) {
        lemma_descend_one(child, b);
    }
}

/// The homepage is the project's website, in full, unless that is empty.
pub proof fn law_the_homepage_is_the_website(doc: &serde_json::Value, r: Definition, text: Seq<char>)
    requires
        call_ensures(normalise, (doc,), r),
    ensures
        opt_text(r.homepage) == Some(text) <==> says(
            json_of(*doc),
            seq!["described"@, "projectWebsite"@],
            text,
        ) && text.len() > 0,
{
    lemma_two_keys(json_of(*doc), "described"@, "projectWebsite"@);
}

/// The source URL is that of the source location, in full, where it names a
/// repository.
pub proof fn law_the_source_is_the_location(
    doc: &serde_json::Value,
    r: Definition,
    url: &str,
    repository: bool,
)
    requires
        call_ensures(normalise, (doc,), r),
        call_ensures(is_vcs_url, (url,), repository),
    ensures
        opt_text(r.source_url) == Some(url@) <==> says(
            json_of(*doc),
            seq!["described"@, "sourceLocation"@, "url"@],
            url@,
        ) && repository,
{
    let tree = json_of(*doc);
    let rest = seq!["sourceLocation"@, "url"@];
    lemma_descend(tree, "described"@, rest);
    assert(seq!["described"@] + rest =~= seq!["described"@, "sourceLocation"@, "url"@]);
}

/// The score is the effective one where that is an unsigned integer, and nothing
/// otherwise.
pub proof fn law_the_score_is_the_effective_one(doc: &serde_json::Value, r: Definition, n: u64)
    requires
        call_ensures(normalise, (doc,), r),
    ensures
        json_of(*doc).descend(seq!["scores"@, "effective"@]) == Some(Json::Number(Some(n)))
            ==> r.score == n,
        !(json_of(*doc).descend(seq!["scores"@, "effective"@]) matches Some(Json::Number(Some(_))))
            ==> r.score == 0,
{
}

/// A coordinate was examined exactly where the document lists at least one tool.
pub proof fn law_examined_means_a_tool_is_listed(doc: &serde_json::Value, r: Definition)
    requires
        call_ensures(normalise, (doc,), r),
    ensures
        r.harvested <==> (json_of(*doc).descend(seq!["described"@, "tools"@]) matches Some(
            Json::Array(items),
        ) && items.len() > 0),
{
    lemma_two_keys(json_of(*doc), "described"@, "tools"@);
}

/// The parties are those listed under the core facet of the licence, or where
/// that is absent under the licence itself, arranged; and there are none where
/// what is found there is no list.
pub proof fn law_the_parties_are_the_listed_ones(
    doc: &serde_json::Value,
    r: Definition,
    items: Seq<Json>,
)
    requires
        call_ensures(normalise, (doc,), r),
    ensures
        ({
            let facet = json_of(*doc).descend(
                seq!["licensed"@, "facets"@, "core"@, "attribution"@, "parties"@],
            );
            let plain = json_of(*doc).descend(seq!["licensed"@, "attribution"@, "parties"@]);
            let listed = if facet is Some {
                facet
            } else {
                plain
            };
            &&& listed == Some(Json::Array(items)) ==> texts(r.parties@) == cleanest(
                strings_among(items),
            )
            &&& !(listed matches Some(Json::Array(_))) ==> r.parties@.len() == 0
        }),
{
    let tree = json_of(*doc);
    let deep = seq!["facets"@, "core"@, "attribution"@, "parties"@];
    let flat = seq!["attribution"@, "parties"@];
    lemma_descend(tree, "licensed"@, deep);
    lemma_descend(tree, "licensed"@, flat);
    assert(seq!["licensed"@] + deep =~= seq![
        "licensed"@,
        "facets"@,
        "core"@,
        "attribution"@,
        "parties"@,
    ]);
    assert(seq!["licensed"@] + flat =~= seq!["licensed"@, "attribution"@, "parties"@]);
    let none = Seq::<Seq<char>>::empty();
    assert(crate::party::cleaned(none).len() == 0) by {
        reveal(Seq::filter);
    }
    assert(texts(r.parties@).len() == r.parties@.len());
}

/// Of a list the strings are taken, in its order, and nothing else.
pub proof fn law_the_strings_of_a_list_are_taken(items: Seq<Json>, item: Json, text: Seq<char>)
    ensures
        strings_among(Seq::empty()) == Seq::<Seq<char>>::empty(),
        item == Json::Text(text) ==> strings_among(items.push(item)) == strings_among(items).push(
            text,
        ),
        !(item is Text) ==> strings_among(items.push(item)) == strings_among(items),
{
    let f = |i: Json| i.text();
    let more = items.push(item);
    assert(more.drop_last() =~= items);
    assert(more.last() == item);
    reveal(Seq::filter_map);
    if item == Json::Text(text) {
        assert(more.filter_map(f) =~= items.filter_map(f).push(text));
    }
}

} // verus!
