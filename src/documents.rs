//! Document types, recognised by file extension.
use crate::text::str_eq;
use vstd::prelude::*;

verus! {

/// Supported document types.
#[derive(Debug, Clone, Copy, PartialEq, Eq, Structural)]
pub enum DocumentType {
    Pdf,
    Txt,
    Md,
}

/// What `str::to_lowercase` makes of `s` (Unicode lowercase mapping).
pub uninterp spec fn lowercase_of(s: Seq<char>) -> Seq<char>;

/// Relies on `str::to_lowercase`: its result depends on the characters of
/// `s` alone.
#[verifier::external_body]
fn lowercase(s: &str) -> (r: String)
    ensures
        r@ == lowercase_of(s@),
{
    s.to_lowercase()
}

/// The document type named by an already lowercased extension.
pub open spec fn type_of_lowered(ext: Seq<char>) -> Option<DocumentType> {
    if ext == seq!['p', 'd', 'f'] {
        Some(DocumentType::Pdf)
    } else if ext == seq!['t', 'x', 't'] {
        Some(DocumentType::Txt)
    } else if ext == seq!['m', 'd'] || ext == seq!['m', 'a', 'r', 'k', 'd', 'o', 'w', 'n'] {
        Some(DocumentType::Md)
    } else {
        None
    }
}

/// The extension written for each document type.
pub open spec fn extension_of(t: DocumentType) -> Seq<char> {
    match t {
        DocumentType::Pdf => seq!['p', 'd', 'f'],
        DocumentType::Txt => seq!['t', 'x', 't'],
        DocumentType::Md => seq!['m', 'd'],
    }
}

/// The document type named by `lowered`, an extension already in lowercase:
/// `pdf`, `txt`, `md` or `markdown`.
pub fn document_type_of_lowered(lowered: &str) -> (r: Option<DocumentType>)
    ensures
        r == type_of_lowered(lowered@),
{
    proof {
        reveal_strlit("pdf");
        reveal_strlit("txt");
        reveal_strlit("md");
        reveal_strlit("markdown");
        assert("pdf"@ =~= seq!['p', 'd', 'f']);
        assert("txt"@ =~= seq!['t', 'x', 't']);
        assert("md"@ =~= seq!['m', 'd']);
        assert("markdown"@ =~= seq!['m', 'a', 'r', 'k', 'd', 'o', 'w', 'n']);
    }
    if str_eq(lowered, "pdf") {
        Some(DocumentType::Pdf)
    } else if str_eq(lowered, "txt") {
        Some(DocumentType::Txt)
    } else if str_eq(lowered, "md") || str_eq(lowered, "markdown") {
        Some(DocumentType::Md)
    } else {
        None
    }
}

impl DocumentType {
    /// The document type of a file extension, in any letter case; `None` if
    /// the extension is not supported.
    pub fn from_extension(ext: &str) -> (r: Option<DocumentType>)
        ensures
            r == type_of_lowered(lowercase_of(ext@)),
    {
        let lowered = lowercase(ext);
        document_type_of_lowered(lowered.as_str())
    }

    /// The extension string of this document type.
    pub fn as_str(&self) -> (r: &'static str)
        ensures
            r@ == extension_of(*self),
    {
        proof {
            reveal_strlit("pdf");
            reveal_strlit("txt");
            reveal_strlit("md");
            assert("pdf"@ =~= seq!['p', 'd', 'f']);
            assert("txt"@ =~= seq!['t', 'x', 't']);
            assert("md"@ =~= seq!['m', 'd']);
        }
        match self {
            DocumentType::Pdf => "pdf",
            DocumentType::Txt => "txt",
            DocumentType::Md => "md",
        }
    }
}

} // verus!
