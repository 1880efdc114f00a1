//! Source-text scanning: the reference patterns of the Java backend, and
//! the table of source texts the driver hands in.
//!
//! Reading files is the driver's business; the backend only sees a
//! [`SourceTexts`] snapshot, in which an unreadable file is a `None` and
//! counts as holding no references.  The pattern matches themselves go
//! through the `regex` crate; what they return is named by the two
//! uninterpreted functions and pinned down only by tests and by the
//! contracts of everything computed from them.

use vstd::prelude::*;

verus! {

/// Whether `text` holds an import reference naming `module_name`: the
/// result of matching the backend's import pattern, a function of the two
/// strings alone.
pub uninterp spec fn import_references(text: Seq<char>, module_name: Seq<char>) -> bool;

/// Whether `text` holds the program-entry-point signature: the result of
/// matching the backend's entry-point pattern, a function of the text
/// alone.
pub uninterp spec fn has_main_signature(text: Seq<char>) -> bool;

/// Relies on `regex::Regex::new` and `regex::Regex::is_match`: whether the
/// unanchored pattern `import <module_name>.\w+;` matches `text` depends on
/// the two strings alone; a module name that does not compile as a pattern
/// matches nothing.
#[verifier::external_body]
pub(crate) fn import_match(text: &str, module_name: &str) -> (r: bool)
    ensures
        r == import_references(text@, module_name@),
{
    match regex::Regex::new(&format!(r"import {}.\w+;", module_name)) {
        Ok(re) => re.is_match(text),
        Err(_) => false,
    }
}

/// Relies on `regex::Regex::new` and `regex::Regex::is_match`: whether the
/// unanchored pattern `(public\s+)?static\s+void\s+main\s*\(` matches
/// `text` depends on the text alone.
#[verifier::external_body]
pub(crate) fn main_signature_match(text: &str) -> (r: bool)
    ensures
        r == has_main_signature(text@),
{
    match regex::Regex::new(r"(public\s+)?static\s+void\s+main\s*\(") {
        Ok(re) => re.is_match(text),
        Err(_) => false,
    }
}

/// One source file's path and its text, `None` when it could not be read.
pub struct SourceText {
    pub path: String,
    pub text: Option<String>,
}

/// The texts of the source files of one build, as read by the driver.
pub struct SourceTexts {
    pub files: Vec<SourceText>,
}

/// The text recorded for `path`: the first entry with that path decides;
/// a missing or unreadable file yields `None`.
pub open spec fn text_lookup(files: Seq<SourceText>, path: Seq<char>) -> Option<Seq<char>>
    decreases files.len(),
{
    if files.len() == 0 {
        None
    } else if files[0].path@ == path {
        match files[0].text {
            Some(s) => Some(s@),
            None => None,
        }
    } else {
        text_lookup(files.drop_first(), path)
    }
}

impl SourceTexts {
    /// An empty table.
    pub fn new() -> (r: SourceTexts)
        ensures
            r.files@.len() == 0,
    {
        SourceTexts { files: Vec::new() }
    }

    /// Record what was read for `path`.
    pub fn record(&mut self, path: String, text: Option<String>)
        ensures
            final(self).files@ =~= old(self).files@.push(SourceText { path, text }),
    {
        self.files.push(SourceText { path, text });
    }

    /// Look a path's text up.
    pub fn lookup(&self, path: &str) -> (r: Option<&String>)
        ensures
            match r {
                Some(s) => text_lookup(self.files@, path@) == Some(s@),
                None => text_lookup(self.files@, path@) is None,
            },
    {
        proof {
            assert(self.files@.subrange(0, self.files@.len() as int) =~= self.files@);
        }
        let mut i: usize = 0;
        while i < self.files.len()
            invariant
                i <= self.files@.len(),
                text_lookup(self.files@, path@) == text_lookup(
                    self.files@.subrange(i as int, self.files@.len() as int),
                    path@,
                ),
            decreases self.files@.len() - i,
        {
            proof {
                let suffix = self.files@.subrange(i as int, self.files@.len() as int);
                assert(suffix[0] == self.files@[i as int]);
                assert(suffix.drop_first() =~= self.files@.subrange(
                    i + 1,
                    self.files@.len() as int,
                ));
            }
            if crate::paths::str_equal(self.files[i].path.as_str(), path) {
                return match &self.files[i].text {
                    Some(s) => Some(s),
                    None => None,
                };
            }
            i += 1;
        }
        proof {
            assert(self.files@.subrange(
                self.files@.len() as int,
                self.files@.len() as int,
            ) =~= Seq::<SourceText>::empty());
        }
        None
    }
}

} // verus!
