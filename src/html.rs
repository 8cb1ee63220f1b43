//! Reading a whole HTML page: locating the documentation container and
//! classifying its child elements.
use vstd::prelude::*;
use crate::classify::{
    all_parts, classify, heading_names, member_blocks, members_from, members_named, module_names,
    tally, unknowns, unnamed, warning_from,
    BlockParts, Classified, ClassifyError, DocBlock,
};

verus! {

/// The child elements of the first element of an HTML page that a selector
/// matches, as (element name, class attribute, text) triples; `None` when
/// nothing matches.
pub uninterp spec fn selected_children(html: Seq<char>, selector: Seq<char>) -> Option<Seq<BlockParts>>;

pub open spec fn blocks_parts(r: Option<Vec<DocBlock>>) -> Option<Seq<BlockParts>> {
    match r {
        None => None,
        Some(v) => Some(all_parts(v@)),
    }
}

/// Relies on scraper (`Html::parse_document`, `Selector::parse`, `Html::select`,
/// `ElementRef::child_elements`): the children of the first element that
/// `selector` matches in `html`, with each one's name, class attribute (empty
/// when absent) and text content.
#[verifier::external_body]
fn select_children(html: &str, selector: &str) -> (r: Option<Vec<DocBlock>>)
    ensures
        blocks_parts(r) == selected_children(html@, selector@),
{
    let doc = scraper::Html::parse_document(html);
    let sel = scraper::Selector::parse(selector).ok()?;
    let root = doc.select(&sel).next()?;
    Some(root.child_elements().map(|e| DocBlock {
        tag: e.value().name().to_string(),
        class: e.attr("class").unwrap_or("").to_string(),
        text: e.text().collect(),
    }).collect())
}

/// Finds the documentation container (`div.api-content.content`) of an HTML page and classifies its
/// children.
pub fn classify_html(html: &str) -> (r: Result<Classified, ClassifyError>)
    ensures
        match selected_children(html@, "div.api-content.content"@) {
            None => r matches Err(ClassifyError::MissingRoot),
            Some(bs) => if heading_names(bs).len() == 0 {
                r matches Err(ClassifyError::NoModules)
            } else {
                r matches Ok(c) && module_names(c.modules@) == heading_names(bs) && (forall|k: int|
                    0 <= k < c.modules@.len() ==> members_named(#[trigger] c.modules@[k]))
                    && tally(c.modules@) + c.warnings@.len() == member_blocks(bs)
                    && c.warnings@.len() == unknowns(c.modules@) + unnamed(c.warnings@)
                    && members_from(bs, c.modules@) && forall|w: int|
                    0 <= w < c.warnings@.len() ==> warning_from(bs, #[trigger] c.warnings@[w])
            },
        },
{
    let blocks = select_children(html, "div.api-content.content");
    match blocks {
        None => classify(None),
        Some(bs) => classify(Some(&bs)),
    }
}

} // verus!
