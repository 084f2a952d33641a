use vstd::prelude::*;
use vstd::string::StringExecFns;
use vstd::string::StrSliceExecFns;
use unicode_segmentation::UnicodeSegmentation;

verus! {

/// The pattern of a class selector: a dot and the word characters after it.
pub const CLASS_SELECTOR_PATTERN: &'static str = r"\.\w+";

/// Whether `pattern` is a regular expression that the regex engine accepts.
pub uninterp spec fn pattern_compiles(pattern: Seq<char>) -> bool;

/// The texts of the leftmost-first, non-overlapping matches of `pattern` in
/// `haystack`, in order.
pub uninterp spec fn pattern_matches(pattern: Seq<char>, haystack: Seq<char>) -> Seq<Seq<char>>;

/// The first extended grapheme cluster of `s`.
pub uninterp spec fn first_grapheme(s: Seq<char>) -> Seq<char>;

/// The last component of `path`, if it has one.
pub uninterp spec fn path_file_name(path: Seq<char>) -> Option<Seq<char>>;

/// `path` without its last component, if it has one.
pub uninterp spec fn path_parent(path: Seq<char>) -> Option<Seq<char>>;

/// The extension of the last component of `path`, if it has one.
pub uninterp spec fn path_extension(path: Seq<char>) -> Option<Seq<char>>;

/// `name` appended to the path `base`.
pub uninterp spec fn path_join(base: Seq<char>, name: Seq<char>) -> Seq<char>;

/// Relies on `regex::Regex::new`, which accepts the pattern or not, and on
/// `Regex::find_iter`, which yields the matches from left to right.
#[verifier::external_body]
fn find_matches(pattern: &str, haystack: &str) -> (r: Option<Vec<String>>)
    ensures
        r is Some <==> pattern_compiles(pattern@),
        r matches Some(v) ==> v@.map_values(|m: String| m@) == pattern_matches(pattern@, haystack@),
{
    let re = regex::Regex::new(pattern).ok()?;
    Some(re.find_iter(haystack).map(|m| m.as_str().to_string()).collect())
}

/// Relies on `UnicodeSegmentation::graphemes` (extended clusters): the
/// clusters split the text, so the first one starts it; an empty text has none.
#[verifier::external_body]
fn leading_grapheme(s: &str) -> (r: String)
    ensures
        r@ == first_grapheme(s@),
        r@.is_prefix_of(s@),
{
    String::from(s.graphemes(true).next().unwrap_or(""))
}

/// Relies on `Path::file_name`.
#[verifier::external_body]
fn file_name_of(path: &str) -> (r: Option<String>)
    ensures
        match r {
            Some(name) => path_file_name(path@) == Some(name@),
            None => path_file_name(path@) is None,
        },
{
    std::path::Path::new(path).file_name().and_then(|n| n.to_str()).map(String::from)
}

/// Relies on `Path::parent`.
#[verifier::external_body]
fn parent_of(path: &str) -> (r: Option<String>)
    ensures
        match r {
            Some(parent) => path_parent(path@) == Some(parent@),
            None => path_parent(path@) is None,
        },
{
    std::path::Path::new(path).parent().and_then(|p| p.to_str()).map(String::from)
}

/// Relies on `Path::extension`.
#[verifier::external_body]
fn extension_of(path: &str) -> (r: Option<String>)
    ensures
        match r {
            Some(ext) => path_extension(path@) == Some(ext@),
            None => path_extension(path@) is None,
        },
{
    std::path::Path::new(path).extension().and_then(|e| e.to_str()).map(String::from)
}

/// Relies on `Path::join`.
#[verifier::external_body]
fn join_path(base: &str, name: &str) -> (r: String)
    ensures
        r@ == path_join(base@, name@),
{
    std::path::Path::new(base).join(name).to_string_lossy().into_owned()
}

/// A selector without its leading grapheme (the dot).
pub open spec fn rule_name(selector: Seq<char>) -> Seq<char> {
    selector.subrange(first_grapheme(selector).len() as int, selector.len() as int)
}

/// The declaration of one class name.
pub open spec fn type_def(name: Seq<char>) -> Seq<char> {
    "export const "@ + name + ": string;"@
}

/// The declarations of the classes of `selectors`, one line each, in order.
pub open spec fn type_defs_file(selectors: Seq<Seq<char>>) -> Seq<char>
    decreases selectors.len(),
{
    if selectors.len() == 0 {
        Seq::empty()
    } else {
        type_defs_file(selectors.drop_last()) + type_def(rule_name(selectors.last())) + "\n"@
    }
}

/// `name` or, where there is none, `unknown`.
pub open spec fn or_unknown(name: Option<Seq<char>>) -> Seq<char> {
    match name {
        Some(n) => n,
        None => "unknown"@,
    }
}

/// The rule name of a class selector: the selector without its first grapheme.
pub fn remove_dot(rule: &str) -> (r: &str)
    ensures
        r@ == rule_name(rule@),
        rule@ == first_grapheme(rule@) + r@,
{
    let first = leading_grapheme(rule);
    let r = rule.substring_char(first.as_str().unicode_len(), rule.unicode_len());
    assert(rule@ =~= first@ + r@);
    r
}

/// The TypeScript declaration of the class `rule_name`.
pub fn type_defs_of_rules(rule_name: &str) -> (r: String)
    ensures
        r@ == type_def(rule_name@),
{
    let mut r = String::from_str("export const ");
    r.append(rule_name);
    r.append(": string;");
    r
}

/// `content` followed by the line `type_def`.
pub fn create_type_def_file_content(content: String, type_def: String) -> (r: String)
    ensures
        r@ == content@ + type_def@ + "\n"@,
{
    let mut r = content;
    r.append(type_def.as_str());
    r.append("\n");
    r
}

/// The declarations file for the class selectors found in a stylesheet.
pub fn type_defs_of_selectors(selectors: &Vec<String>) -> (r: String)
    ensures
        r@ == type_defs_file(selectors@.map_values(|m: String| m@)),
{
    let ghost all = selectors@.map_values(|m: String| m@);
    let mut content = String::new();
    let mut i: usize = 0;
    while i < selectors.len()
        invariant
            i <= selectors@.len(),
            all == selectors@.map_values(|m: String| m@),
            content@ == type_defs_file(all.take(i as int)),
        decreases selectors@.len() - i,
    {
        let name = remove_dot(selectors[i].as_str());
        let line = type_defs_of_rules(name);
        content = create_type_def_file_content(content, line);
        proof {
            assert(all.take(i + 1).drop_last() =~= all.take(i as int));
            assert(all.take(i + 1).last() == selectors@[i as int]@);
        }
        i = i + 1;
    }
    assert(all.take(i as int) =~= all);
    content
}

/// The declarations file for the class selectors of the stylesheet `content`;
/// `None` only where the selector pattern does not compile.
pub fn handle_css_change(content: &str) -> (r: Option<String>)
    ensures
        r is Some <==> pattern_compiles(CLASS_SELECTOR_PATTERN@),
        r matches Some(defs) ==> defs@ == type_defs_file(
            pattern_matches(CLASS_SELECTOR_PATTERN@, content@),
        ),
{
    match find_matches(CLASS_SELECTOR_PATTERN, content) {
        Some(selectors) => Some(type_defs_of_selectors(&selectors)),
        None => None,
    }
}

/// How many times reading or writing a file is tried before giving up.
pub const MAX_ATTEMPTS: u32 = 1000;

/// What to do after an attempt at reading or writing a file.
#[derive(Clone, Copy, Debug, PartialEq, Eq, Structural)]
pub enum Attempt {
    Done,
    Retry,
    GiveUp,
}

/// The step after an attempt: stop at the first success, else try again
/// until `attempts` (this one included) reaches the limit.
pub fn next_attempt(attempts: u32, succeeded: bool) -> (r: Attempt)
    ensures
        r == if succeeded {
            Attempt::Done
        } else if attempts < MAX_ATTEMPTS {
            Attempt::Retry
        } else {
            Attempt::GiveUp
        },
{
    if succeeded {
        Attempt::Done
    } else if attempts < MAX_ATTEMPTS {
        Attempt::Retry
    } else {
        Attempt::GiveUp
    }
}

/// Whether `path` names a stylesheet: its extension is `css`.
pub fn is_stylesheet(path: &str) -> (r: bool)
    ensures
        r == (path_extension(path@) == Some("css"@)),
{
    match extension_of(path) {
        Some(ext) => ext == String::from_str("css"),
        None => false,
    }
}

/// The last component of `path`, or `unknown` where it has none.
pub fn extract_filename(path: &str) -> (r: String)
    ensures
        r@ == or_unknown(path_file_name(path@)),
{
    match file_name_of(path) {
        Some(name) => name,
        None => String::from_str("unknown"),
    }
}

/// The path of the declarations file beside the stylesheet at `path`: its
/// file name with `.d.ts` appended, in the same directory (or in `unknown`
/// where the path has no parent).
pub fn create_type_defs_filename(path: &str) -> (r: String)
    ensures
        r@ == path_join(or_unknown(path_parent(path@)), or_unknown(path_file_name(path@)) + ".d.ts"@),
{
    let parent = match parent_of(path) {
        Some(parent) => parent,
        None => String::from_str("unknown"),
    };
    let mut name = extract_filename(path);
    name.append(".d.ts");
    join_path(parent.as_str(), name.as_str())
}

} // verus!
