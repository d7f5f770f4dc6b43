//! Profile formats: detection and parsers.
//!
//! Every parser turns one format into the common [`crate::profile::Profile`].

use crate::text::{
    chars_of, contains, is_space, lemma_trim_start_spaces, occurs_at, occurs_in, same_text,
    trim_start, trim_start_spec,
};
use vstd::prelude::*;

pub mod gecko;
pub mod perf_json;
pub mod perf_script;

verus! {

/// A supported profile format.
#[derive(Debug, Clone, Copy, PartialEq, Eq, Structural)]
pub enum Format {
    /// `perf data convert --to-json` output.
    PerfJson,
    /// Text output of `perf script`.
    PerfScript,
    /// Gecko / Firefox profiler "processed profile".
    Gecko,
}

impl Format {
    /// The format's name.
    pub open spec fn name_spec(self) -> Seq<char> {
        match self {
            Format::PerfJson => "perf json"@,
            Format::PerfScript => "perf script"@,
            Format::Gecko => "gecko"@,
        }
    }

    /// The format's name.
    pub fn name(self) -> (r: &'static str)
        ensures
            r@ == self.name_spec(),
    {
        match self {
            Format::PerfJson => "perf json",
            Format::PerfScript => "perf script",
            Format::Gecko => "gecko",
        }
    }
}

/// Options controlling how a profile is parsed.
#[derive(Debug, Clone, Copy)]
pub struct Options {
    /// Keep the `+0x<offset>` suffix that `perf script` prints after a symbol
    /// name. By default it is stripped, so that every sample of a function is
    /// grouped together.
    pub include_offset: bool,
}

impl Default for Options {
    /// Offsets are stripped.
    fn default() -> (r: Self)
        ensures
            !r.include_offset,
    {
        Options { include_offset: false }
    }
}

/// The text starts, after white space, with an opening brace.
pub open spec fn looks_like_json(head: Seq<char>) -> bool {
    trim_start_spec(head).len() > 0 && trim_start_spec(head)[0] == '{'
}

/// The format that a file's extension and the start of its contents point at. The
/// extension `perf`, and contents that are no JSON object, mean `perf script`;
/// otherwise the fields that stand in the contents decide.
pub open spec fn detected(extension: Option<Seq<char>>, head: Seq<char>) -> Option<Format> {
    if extension == Some("perf"@) || !looks_like_json(head) {
        Some(Format::PerfScript)
    } else if occurs_in(head, "preprocessedProfileVersion"@) || occurs_in(head, "\"frameTable\""@)
        || occurs_in(head, "\"stringArray\""@) {
        Some(Format::Gecko)
    } else if occurs_in(head, "linux-perf-json-version"@) || occurs_in(head, "\"headers\""@) {
        Some(Format::PerfJson)
    } else {
        None
    }
}

/// Guesses a file's format from its extension and a prefix of its contents.
pub fn detect_format(extension: Option<&str>, head: &str) -> (r: Option<Format>)
    ensures
        r == detected(
            match extension {
                Some(e) => Some(e@),
                None => None,
            },
            head@,
        ),
{
    if let Some(e) = extension {
        if same_text(e, "perf") {
            return Some(Format::PerfScript);
        }
    }
    let chars = chars_of(head);
    let head = chars.as_slice();
    let start = trim_start(head);
    if start.len() == 0 || start[0] != '{' {
        return Some(Format::PerfScript);
    }
    if contains(head, chars_of("preprocessedProfileVersion").as_slice()) || contains(
        head,
        chars_of("\"frameTable\"").as_slice(),
    ) || contains(head, chars_of("\"stringArray\"").as_slice()) {
        return Some(Format::Gecko);
    }
    if contains(head, chars_of("linux-perf-json-version").as_slice()) || contains(
        head,
        chars_of("\"headers\"").as_slice(),
    ) {
        return Some(Format::PerfJson);
    }
    None
}

/// The text has `part` in it.
pub open spec fn has_part(head: Seq<char>, part: Seq<char>) -> bool {
    exists|a: Seq<char>, b: Seq<char>| head == #[trigger] (a + part + b)
}

proof fn lemma_has_part(head: Seq<char>, part: Seq<char>)
    ensures
        has_part(head, part) <==> occurs_in(head, part),
{
    if has_part(head, part) {
        let (a, b) = choose|a: Seq<char>, b: Seq<char>| head == #[trigger] (a + part + b);
        let i = a.len() as int;
        assert(head.subrange(i, i + part.len()) =~= part);
        assert(occurs_at(head, part, i));
    }
    if occurs_in(head, part) {
        let i = choose|i: int| occurs_at(head, part, i);
        let a = head.take(i);
        let b = head.skip(i + part.len());
        assert(head =~= a + part + b);
    }
}

/// The contents are those of `perf script` where the extension says so, or where their
/// first character that is no white space is no opening brace. In a JSON document a field
/// of the Gecko format decides for it, and else one of the perf format for that; a
/// document with neither is of no known format.
pub proof fn law_detected(extension: Option<Seq<char>>, blank: Seq<char>, text: Seq<char>)
    requires
        forall|i: int| 0 <= i < blank.len() ==> is_space(#[trigger] blank[i]),
        text.len() > 0 ==> !is_space(text[0]),
    ensures
        ({
            let head = blank + text;
            let gecko = has_part(head, "preprocessedProfileVersion"@) || has_part(
                head,
                "\"frameTable\""@,
            ) || has_part(head, "\"stringArray\""@);
            let perf = has_part(head, "linux-perf-json-version"@) || has_part(
                head,
                "\"headers\""@,
            );
            let script = extension == Some("perf"@) || text.len() == 0 || text[0] != '{';
            &&& script ==> detected(extension, head) == Some(Format::PerfScript)
            &&& !script && gecko ==> detected(extension, head) == Some(Format::Gecko)
            &&& !script && !gecko && perf ==> detected(extension, head) == Some(Format::PerfJson)
            &&& !script && !gecko && !perf ==> detected(extension, head) is None
        }),
{
    let head = blank + text;
    lemma_trim_start_spaces(blank, text);
    assert(trim_start_spec(text) == text);
    lemma_has_part(head, "preprocessedProfileVersion"@);
    lemma_has_part(head, "\"frameTable\""@);
    lemma_has_part(head, "\"stringArray\""@);
    lemma_has_part(head, "linux-perf-json-version"@);
    lemma_has_part(head, "\"headers\""@);
}

/// What the formats are called.
pub proof fn law_format_name(format: Format)
    ensures
        format is PerfJson ==> format.name_spec() == "perf json"@,
        format is PerfScript ==> format.name_spec() == "perf script"@,
        format is Gecko ==> format.name_spec() == "gecko"@,
{
}

} // verus!
