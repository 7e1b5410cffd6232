//! Revisions of pages, and what is compared to see what a revision changed.

use vstd::prelude::*;

use crate::layout::RevisionID;

verus! {

/// A user who made a revision.
pub type ContributorID = u64;

/// A page.
pub type PageID = u64;

/// A revision of a page.
#[derive(Debug, PartialEq, Eq)]
pub struct Revision {
    pub id: RevisionID,
    pub parent_id: Option<RevisionID>,
    pub page_title: String,
    pub contributor_id: Option<ContributorID>,
    pub contributor_name: Option<String>,
    pub contributor_ip: Option<String>,
    pub timestamp: String,
    pub text: Option<String>,
    pub comment: Option<String>,
    pub page_id: PageID,
    pub page_ns: u32,
}

/// The characters of a text that may be missing.
pub open spec fn optional_view(s: Option<String>) -> Option<Seq<char>> {
    match s {
        Some(t) => Some(t@),
        None => None,
    }
}

/// A text, or nothing at all where it is missing.
pub open spec fn or_empty(s: Option<Seq<char>>) -> Seq<char> {
    match s {
        Some(t) => t,
        None => Seq::empty(),
    }
}

/// The two texts to compare for a revision, the older one first: the text of its parent with its
/// own, or, where it has no text, the comment of its parent with its own. Without a parent the
/// older one is empty. There is nothing to compare where it has neither.
pub open spec fn compared(revision: Revision, parent: Option<Revision>) -> Option<
    (Seq<char>, Seq<char>),
> {
    match (optional_view(revision.text), optional_view(revision.comment)) {
        (Some(text), _) => Some(
            (
                match parent {
                    Some(p) => or_empty(optional_view(p.text)),
                    None => Seq::empty(),
                },
                text,
            ),
        ),
        (None, Some(comment)) => Some(
            (
                match parent {
                    Some(p) => or_empty(optional_view(p.comment)),
                    None => Seq::empty(),
                },
                comment,
            ),
        ),
        (None, None) => None,
    }
}

/// What comes second is what the revision says itself: its text, or its comment where it has no
/// text. There is nothing to compare exactly where it has neither.
pub proof fn law_newer_text_is_the_revisions_own(revision: Revision, parent: Option<Revision>)
    ensures
        compared(revision, parent) is None <==> revision.text is None && revision.comment is None,
        revision.text matches Some(text) ==> (compared(revision, parent)->0).1 == text@,
        revision.text is None ==> (revision.comment matches Some(comment) ==> (compared(
            revision,
            parent,
        )->0).1 == comment@),
{
}

/// What comes first is what the parent says in the same place: a text is compared with a text, and
/// a comment with a comment. It is empty where the parent says nothing there, and where there is
/// no parent.
pub proof fn law_older_text_is_the_parents(revision: Revision, parent: Revision)
    ensures
        revision.text is Some ==> (parent.text matches Some(older) ==> (compared(
            revision,
            Some(parent),
        )->0).0 == older@),
        revision.text is Some && parent.text is None ==> (compared(revision, Some(parent))->0).0
            == Seq::<char>::empty(),
        revision.text is None && revision.comment is Some ==> (parent.comment matches Some(older)
            ==> (compared(revision, Some(parent))->0).0 == older@),
        revision.text is None && revision.comment is Some && parent.comment is None ==> (compared(
            revision,
            Some(parent),
        )->0).0 == Seq::<char>::empty(),
        compared(revision, None) is Some ==> (compared(revision, None)->0).0
            == Seq::<char>::empty(),
{
}

/// Nothing but texts and comments has a part in what is compared: not who made the revisions, when
/// or where. Revisions that say the same, with parents that say the same, are compared alike.
pub proof fn law_only_texts_and_comments_matter(
    a: Revision,
    a_parent: Revision,
    b: Revision,
    b_parent: Revision,
)
    requires
        a.text is Some <==> b.text is Some,
        a.text is Some ==> a.text->0@ == b.text->0@,
        a.comment is Some <==> b.comment is Some,
        a.comment is Some ==> a.comment->0@ == b.comment->0@,
        a_parent.text is Some <==> b_parent.text is Some,
        a_parent.text is Some ==> a_parent.text->0@ == b_parent.text->0@,
        a_parent.comment is Some <==> b_parent.comment is Some,
        a_parent.comment is Some ==> a_parent.comment->0@ == b_parent.comment->0@,
    ensures
        compared(a, Some(a_parent)) == compared(b, Some(b_parent)),
        compared(a, None) == compared(b, None),
{
}

/// A copy of a text, or an empty one where it is missing.
fn text_or_empty(s: &Option<String>) -> (r: String)
    ensures
        r@ == or_empty(optional_view(*s)),
{
    match s {
        Some(t) => t.clone(),
        None => String::new(),
    }
}

/// The two texts to compare for a revision, the older one first. `None` where it has neither a
/// text nor a comment. The parent is given exactly where the revision has one.
pub fn texts_to_compare(revision: &Revision, parent: &Option<Revision>) -> (r: Option<
    (String, String),
>)
    requires
        parent is Some <==> revision.parent_id is Some,
    ensures
        match compared(*revision, *parent) {
            Some((older, newer)) => r is Some && (r->0).0@ == older && (r->0).1@ == newer,
            None => r is None,
        },
        r is None <==> revision.text is None && revision.comment is None,
        revision.text matches Some(text) ==> (r->0).1@ == text@,
        revision.text is None ==> (revision.comment matches Some(comment) ==> (r->0).1@
            == comment@),
        revision.text is Some ==> (parent matches Some(p) ==> (p.text matches Some(older) ==> (
        r->0).0@ == older@)),
        revision.text is None && revision.comment is Some ==> (parent matches Some(p) ==> (
        p.comment matches Some(older) ==> (r->0).0@ == older@)),
        r is Some && parent is None ==> (r->0).0@ == Seq::<char>::empty(),
{
    match &revision.text {
        Some(revision_text) => {
            let older = match parent {
                Some(parent) => text_or_empty(&parent.text),
                None => String::new(),
            };
            Some((older, revision_text.clone()))
        },
        None => match &revision.comment {
            Some(revision_comment) => {
                let older = match parent {
                    Some(parent) => text_or_empty(&parent.comment),
                    None => String::new(),
                };
                Some((older, revision_comment.clone()))
            },
            None => None,
        },
    }
}

} // verus!
