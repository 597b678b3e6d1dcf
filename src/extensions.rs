//! File extensions, and which ones mark text and source code.

use vstd::prelude::*;

use crate::metrics::same_text;

verus! {

/// What `Path::extension` finds in a path: the text after the last dot of
/// its file name, if there is one.
pub uninterp spec fn extension_of(path: Seq<char>) -> Option<Seq<char>>;

/// Relies on `std::path::Path::extension`: the extension of a path that is
/// valid text depends on its characters alone, and is itself valid text.
#[verifier::external_body]
fn extension(path: &str) -> (r: Option<String>)
    ensures
        r is None <==> extension_of(path@) is None,
        r matches Some(e) ==> extension_of(path@) == Some(e@),
{
    match std::path::Path::new(path).extension() {
        Some(e) => match e.to_str() {
            Some(text) => Some(text.to_string()),
            None => None,
        },
        None => None,
    }
}

/// The path's extension is one of `extensions`.
pub open spec fn allowed(path: Seq<char>, extensions: Seq<&str>) -> bool {
    match extension_of(path) {
        Some(e) => exists|i: int| 0 <= i < extensions.len() && (#[trigger] extensions[i])@ == e,
        None => false,
    }
}

pub fn has_allowed_extension(file: &str, extensions: &[&str]) -> (r: bool)
    ensures
        r == allowed(file@, extensions@),
{
    match extension(file) {
        None => false,
        Some(e) => {
            let mut i: usize = 0;
            while i < extensions.len()
                invariant
                    i <= extensions@.len(),
                    extension_of(file@) == Some(e@),
                    forall|j: int| 0 <= j < i ==> (#[trigger] extensions@[j])@ != e@,
                decreases extensions@.len() - i,
            {
                if same_text(extensions[i], e.as_str()) {
                    return true;
                }
                i = i + 1;
            }
            false
        },
    }
}

/// The extensions of files that hold text.
pub open spec fn text_extensions_spec() -> Seq<Seq<char>> {
    seq![
        "c"@, "cc"@, "cpp"@, "cs"@, "css"@, "go"@, ".gitignore"@, "h"@, "hpp"@, "html"@,
        "java"@, "js"@, "json"@, "jsx"@, "m"@, "mm"@, "md"@, "pbproj"@, "php"@, "py"@,
        "rs"@, "sh"@, "swift"@, "ts"@, "tsx"@, "txt"@, "xml"@, "yaml"@, "yml"@,
    ]
}

/// The extensions of files that hold source code.
pub open spec fn code_extensions_spec() -> Seq<Seq<char>> {
    seq![
        "c"@, "cc"@, "cpp"@, "cs"@, "css"@, "go"@, "h"@, "hpp"@, "html"@,
        "java"@, "js"@, "json"@, "jsx"@, "m"@, "mm"@, "md"@, "pbproj"@, "php"@, "py"@,
        "rs"@, "sh"@, "swift"@, "ts"@, "tsx"@, "yaml"@, "yml"@,
    ]
}

pub fn text_file_extensions() -> (r: Vec<&'static str>)
    ensures
        r@.map_values(|s: &str| s@) == text_extensions_spec(),
{
    let r = vec![
        "c", "cc", "cpp", "cs", "css", "go", ".gitignore", "h", "hpp", "html",
        "java", "js", "json", "jsx", "m", "mm", "md", "pbproj", "php", "py",
        "rs", "sh", "swift", "ts", "tsx", "txt", "xml", "yaml", "yml",
    ];
    assert(r@.map_values(|s: &str| s@) =~= text_extensions_spec());
    r
}

pub fn code_file_extensions() -> (r: Vec<&'static str>)
    ensures
        r@.map_values(|s: &str| s@) == code_extensions_spec(),
{
    let r = vec![
        "c", "cc", "cpp", "cs", "css", "go", "h", "hpp", "html",
        "java", "js", "json", "jsx", "m", "mm", "md", "pbproj", "php", "py",
        "rs", "sh", "swift", "ts", "tsx", "yaml", "yml",
    ];
    assert(r@.map_values(|s: &str| s@) =~= code_extensions_spec());
    r
}

/// The file's extension marks it as text.
pub fn is_text_file(file: &str) -> (r: bool)
    ensures
        r == (extension_of(file@) matches Some(e) && text_extensions_spec().contains(e)),
{
    let exts = text_file_extensions();
    let r = has_allowed_extension(file, exts.as_slice());
    proof {
        let views = exts@.map_values(|s: &str| s@);
        if let Some(e) = extension_of(file@) {
            if r {
                let i = choose|i: int| 0 <= i < exts@.len() && (#[trigger] exts@[i])@ == e;
                assert(views[i] == e);
            }
            if text_extensions_spec().contains(e) {
                let i = choose|i: int| 0 <= i < views.len() && views[i] == e;
                assert(exts@[i]@ == e);
            }
        }
    }
    r
}

} // verus!
