//! Records read from the Zotero database.
use vstd::prelude::*;

verus! {

/// One annotation on a PDF attachment.
#[derive(Clone, Debug)]
pub struct ZoteroAnnotation {
    pub item_id: i64,
    pub ann_type: i32,
    pub text: Option<String>,
    pub comment: Option<String>,
    pub color: Option<String>,
    pub page_label: Option<String>,
    pub sort_index: String,
}

/// A child note of a Zotero item, its HTML already converted to Markdown.
#[derive(Clone, Debug)]
pub struct ZoteroChildNote {
    pub item_id: i64,
    pub html_content: String,
    pub title: Option<String>,
}

/// A copy of an optional string.
pub fn copy_opt_string(s: &Option<String>) -> (r: Option<String>)
    ensures
        r == *s,
{
    match s {
        Some(x) => Some(x.clone()),
        None => None,
    }
}

impl ZoteroAnnotation {
    /// A field-by-field copy of this annotation.
    pub fn copy(&self) -> (r: ZoteroAnnotation)
        ensures
            r == *self,
    {
        ZoteroAnnotation {
            item_id: self.item_id,
            ann_type: self.ann_type,
            text: copy_opt_string(&self.text),
            comment: copy_opt_string(&self.comment),
            color: copy_opt_string(&self.color),
            page_label: copy_opt_string(&self.page_label),
            sort_index: self.sort_index.clone(),
        }
    }
}

/// The optional text of a field, `None` when absent or empty.
pub open spec fn nonempty_text(s: Option<String>) -> Option<Seq<char>> {
    match s {
        Some(x) => if x@.len() > 0 {
            Some(x@)
        } else {
            None
        },
        None => None,
    }
}

} // verus!
