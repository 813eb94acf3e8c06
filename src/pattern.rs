//! Compiled patterns, the spans they capture, and rewriting text by those spans.
use regex::Regex;
use vstd::prelude::*;
use vstd::string::StringSliceAdditionalSpecFns;
use vstd::utf8::{
    decode_utf8, encode_utf8, encode_utf8_decode_utf8, encode_utf8_valid_utf8, is_char_boundary,
    is_char_boundary_start_end_of_seq,
};

verus! {

#[verifier::external_type_specification]
#[verifier::external_body]
pub struct ExRegex(regex::Regex);

#[verifier::external_type_specification]
#[verifier::external_body]
pub struct ExRegexError(regex::Error);

/// Whether `pattern` is a regular expression that compiles.
pub uninterp spec fn regex_compiles(pattern: Seq<char>) -> bool;

/// The number of capture groups of `pattern`, the whole match included.
pub uninterp spec fn regex_capture_slots(pattern: Seq<char>) -> nat;

/// The successive non-overlapping matches of `pattern` in `text`: the byte span of
/// each match, and that of its first group when the group took part.
pub uninterp spec fn regex_captures(pattern: Seq<char>, text: Seq<char>) -> Seq<
    (usize, usize, Option<(usize, usize)>),
>;

/// A capture: byte span of the match, and byte span of its first group if any.
pub type Capture = (usize, usize, Option<(usize, usize)>);

/// Start of the span that a capture replaces: its first group, or an empty span at
/// the match's start when the group did not take part.
pub open spec fn edit_start(c: Capture) -> int {
    match c.2 {
        Some(g) => g.0 as int,
        None => c.0 as int,
    }
}

pub open spec fn edit_end(c: Capture) -> int {
    match c.2 {
        Some(g) => g.1 as int,
        None => c.0 as int,
    }
}

/// The captures lie in order within `bytes`, on character boundaries, each group
/// inside its match.
pub open spec fn captures_fit(caps: Seq<Capture>, bytes: Seq<u8>) -> bool {
    &&& forall|k: int|
        0 <= k < caps.len() ==> {
            let c = #[trigger] caps[k];
            &&& c.0 <= c.1 <= bytes.len()
            &&& is_char_boundary(bytes, c.0 as int)
            &&& is_char_boundary(bytes, c.1 as int)
            &&& match c.2 {
                Some(g) => c.0 <= g.0 <= g.1 <= c.1 && is_char_boundary(bytes, g.0 as int)
                    && is_char_boundary(bytes, g.1 as int),
                None => true,
            }
        }
    &&& forall|k: int| 0 <= k < caps.len() - 1 ==> (#[trigger] caps[k]).1 <= caps[k + 1].0
}

/// Where the unchanged text before capture `k` begins.
pub open spec fn prev_end(caps: Seq<Capture>, k: int) -> int {
    if k <= 0 {
        0
    } else {
        edit_end(caps[k - 1])
    }
}

/// The text of bytes `a..b`.
pub open spec fn piece(bytes: Seq<u8>, a: int, b: int) -> Seq<char> {
    decode_utf8(bytes.subrange(a, b))
}

/// The text up to the end of capture `k - 1`, each replaced span swapped for its
/// replacement and everything else kept.
pub open spec fn spliced_upto(
    bytes: Seq<u8>,
    caps: Seq<Capture>,
    reps: Seq<Seq<char>>,
    k: nat,
) -> Seq<char>
    decreases k,
{
    if k == 0 {
        Seq::empty()
    } else {
        spliced_upto(bytes, caps, reps, (k - 1) as nat) + piece(
            bytes,
            prev_end(caps, k - 1),
            edit_start(caps[k - 1]),
        ) + reps[k - 1]
    }
}

/// The whole text with the span of each capture `k` replaced by `reps[k]`.
pub open spec fn spliced(text: Seq<char>, caps: Seq<Capture>, reps: Seq<Seq<char>>) -> Seq<char> {
    let bytes = encode_utf8(text);
    spliced_upto(bytes, caps, reps, caps.len()) + piece(
        bytes,
        prev_end(caps, caps.len() as int),
        bytes.len() as int,
    )
}

/// The text of the first group of capture `c` (empty when it did not take part).
pub open spec fn group_text(text: Seq<char>, c: Capture) -> Seq<char> {
    piece(encode_utf8(text), edit_start(c), edit_end(c))
}

/// Source of the built-in class-attribute pattern.
pub const DEFAULT_CLASS_PATTERN: &'static str = r#"\b(?:class(?:Name)?\s*=\s*["'])([_a-zA-Z0-9\.,\s\-:\[\]()/#%]+)["']"#;

/// A compiled regular expression together with its source text.
pub struct Pattern {
    source: String,
    regex: Regex,
}

impl View for Pattern {
    type V = Seq<char>;

    closed spec fn view(&self) -> Seq<char> {
        self.source@
    }
}

/// Relies on regex::Regex::new: succeeds exactly on patterns that compile.
#[verifier::external_body]
fn compile(source: &str) -> (r: Result<Regex, regex::Error>)
    ensures
        r is Ok <==> regex_compiles(source@),
{
    Regex::new(source)
}

/// Relies on regex::Regex::captures_len, of the regex compiled from the pattern's
/// source (`Pattern::new` is the only way to build one).
#[verifier::external_body]
fn capture_slots(p: &Pattern) -> (r: usize)
    ensures
        r == regex_capture_slots(p@),
{
    p.regex.captures_len()
}

/// Relies on regex::Regex::is_match: true exactly when there is a match.
#[verifier::external_body]
fn any_match(p: &Pattern, text: &str) -> (r: bool)
    ensures
        r == (regex_captures(p@, text@).len() > 0),
{
    p.regex.is_match(text)
}

/// Relies on regex::Regex::captures_iter: successive non-overlapping matches whose
/// byte offsets fall on character boundaries, each group inside its match.
#[verifier::external_body]
fn find_captures(p: &Pattern, text: &str) -> (r: Vec<Capture>)
    ensures
        r@ == regex_captures(p@, text@),
        captures_fit(r@, text.spec_bytes()),
{
    p.regex.captures_iter(text).map(|c| {
        let m = c.get_match();
        (m.start(), m.end(), c.get(1).map(|g| (g.start(), g.end())))
    }).collect()
}

/// Relies on str indexing by a byte range whose ends are character boundaries.
#[verifier::external_body]
pub(crate) fn byte_slice(s: &str, a: usize, b: usize) -> (r: &str)
    requires
        a <= b <= s.spec_bytes().len(),
        is_char_boundary(s.spec_bytes(), a as int),
        is_char_boundary(s.spec_bytes(), b as int),
    ensures
        r.spec_bytes() == s.spec_bytes().subrange(a as int, b as int),
{
    &s[a..b]
}

/// Appends the text of bytes `a..b` of `s`.
fn push_piece(out: &mut String, s: &str, a: usize, b: usize)
    requires
        a <= b <= s.spec_bytes().len(),
        is_char_boundary(s.spec_bytes(), a as int),
        is_char_boundary(s.spec_bytes(), b as int),
    ensures
        final(out)@ == old(out)@ + piece(s.spec_bytes(), a as int, b as int),
{
    let p = byte_slice(s, a, b);
    proof {
        encode_utf8_decode_utf8(p@);
    }
    out.append(p);
}

/// Why a pattern could not be used.
pub enum PatternError {
    /// The pattern does not compile.
    Compile(regex::Error),
    /// The pattern has fewer capture groups than required.
    Shape,
}

impl Pattern {
    /// Compiles `source`.
    pub fn new(source: &str) -> (r: Result<Pattern, PatternError>)
        ensures
            r is Ok <==> regex_compiles(source@),
            r matches Ok(p) ==> p@ == source@,
            r matches Err(e) ==> e is Compile,
    {
        match compile(source) {
            Ok(regex) => Ok(Pattern { source: source.to_owned(), regex }),
            Err(e) => Err(PatternError::Compile(e)),
        }
    }

    /// Compiles `source` and asks for at least one group besides the whole match.
    pub fn new_with_group(source: &str) -> (r: Result<Pattern, PatternError>)
        ensures
            r is Ok <==> regex_compiles(source@) && regex_capture_slots(source@) >= 2,
            r matches Ok(p) ==> p@ == source@,
            r matches Err(e) ==> (e is Compile <==> !regex_compiles(source@)),
    {
        let p = Pattern::new(source)?;
        if capture_slots(&p) < 2 {
            return Err(PatternError::Shape);
        }
        Ok(p)
    }

    /// The built-in class-attribute pattern: `class` or `className`, `=`, a quote,
    /// the class string as group 1, and the closing quote.
    pub fn default_pattern() -> (r: Result<Pattern, PatternError>)
        ensures
            r is Ok <==> regex_compiles(DEFAULT_CLASS_PATTERN@),
            r matches Ok(p) ==> p@ == DEFAULT_CLASS_PATTERN@,
    {
        Pattern::new(DEFAULT_CLASS_PATTERN)
    }

    /// The source text of the pattern.
    pub fn as_str(&self) -> (r: &str)
        ensures
            r@ == self@,
    {
        self.source.as_str()
    }

    /// Whether the pattern matches anywhere in `text`.
    pub fn is_match(&self, text: &str) -> (r: bool)
        ensures
            r == (regex_captures(self@, text@).len() > 0),
    {
        any_match(self, text)
    }
}

/// All captures of `p` in `text`.
pub fn captures_of(p: &Pattern, text: &str) -> (r: Vec<Capture>)
    ensures
        r@ == regex_captures(p@, text@),
        captures_fit(r@, text.spec_bytes()),
{
    find_captures(p, text)
}

/// The text of the first group of capture `c` (empty when it did not take part).
pub fn capture_text<'a>(text: &'a str, c: Capture) -> (r: &'a str)
    requires
        captures_fit(seq![c], text.spec_bytes()),
    ensures
        r@ == group_text(text@, c),
{
    let (start, end) = match c.2 {
        Some(g) => g,
        None => (c.0, c.0),
    };
    proof {
        assert(seq![c][0] == c);
    }
    let r = byte_slice(text, start, end);
    proof {
        encode_utf8_decode_utf8(r@);
    }
    r
}

/// Replaces the span of each capture `k` of `text` by `reps[k]`, keeping all else.
pub fn splice(text: &str, caps: &Vec<Capture>, reps: &Vec<String>) -> (r: String)
    requires
        captures_fit(caps@, text.spec_bytes()),
        reps.len() == caps.len(),
    ensures
        r@ == spliced(text@, caps@, reps.deep_view()),
{
    let ghost bytes = text.spec_bytes();
    proof {
        encode_utf8_valid_utf8(text@);
        is_char_boundary_start_end_of_seq(bytes);
    }
    let mut out = String::new();
    let mut pos: usize = 0;
    let mut k: usize = 0;
    while k < caps.len()
        invariant
            k <= caps.len(),
            reps.len() == caps.len(),
            bytes == text.spec_bytes(),
            captures_fit(caps@, bytes),
            is_char_boundary(bytes, 0),
            is_char_boundary(bytes, bytes.len() as int),
            pos == prev_end(caps@, k as int),
            out@ == spliced_upto(bytes, caps@, reps.deep_view(), k as nat),
        decreases caps.len() - k,
    {
        let c = caps[k];
        let (start, end) = match c.2 {
            Some(g) => g,
            None => (c.0, c.0),
        };
        proof {
            let cs = caps@;
            assert(cs[k as int] == c);
            if k > 0 {
                assert(cs[k - 1].1 <= cs[k as int].0);
            }
        }
        push_piece(&mut out, text, pos, start);
        out.append(reps[k].as_str());
        pos = end;
        k = k + 1;
    }
    proof {
        assert(bytes.len() == text.spec_bytes().len());
        if k > 0 {
            assert(caps@[k - 1].1 <= bytes.len());
        }
    }
    let n = text.as_bytes().len();
    push_piece(&mut out, text, pos, n);
    out
}

} // verus!
