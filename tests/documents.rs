use local_rag::documents::{document_type_of_lowered, DocumentType};

#[test]
fn test_document_type_from_extension() {
    assert_eq!(DocumentType::from_extension("pdf"), Some(DocumentType::Pdf));
    assert_eq!(DocumentType::from_extension("PDF"), Some(DocumentType::Pdf));
    assert_eq!(DocumentType::from_extension("txt"), Some(DocumentType::Txt));
    assert_eq!(DocumentType::from_extension("md"), Some(DocumentType::Md));
    assert_eq!(DocumentType::from_extension("markdown"), Some(DocumentType::Md));
    assert_eq!(DocumentType::from_extension("doc"), None);
}

#[test]
fn extension_in_mixed_case() {
    assert_eq!(DocumentType::from_extension("MarkDown"), Some(DocumentType::Md));
    assert_eq!(DocumentType::from_extension("TxT"), Some(DocumentType::Txt));
    assert_eq!(DocumentType::from_extension(""), None);
}

#[test]
fn lowered_extension_is_matched_exactly() {
    assert_eq!(document_type_of_lowered("pdf"), Some(DocumentType::Pdf));
    assert_eq!(document_type_of_lowered("PDF"), None);
    assert_eq!(document_type_of_lowered("markdown"), Some(DocumentType::Md));
    assert_eq!(document_type_of_lowered("mdx"), None);
}

#[test]
fn as_str_names_extension() {
    assert_eq!(DocumentType::Pdf.as_str(), "pdf");
    assert_eq!(DocumentType::Txt.as_str(), "txt");
    assert_eq!(DocumentType::Md.as_str(), "md");
    for t in [DocumentType::Pdf, DocumentType::Txt, DocumentType::Md] {
        assert_eq!(DocumentType::from_extension(t.as_str()), Some(t));
    }
}
