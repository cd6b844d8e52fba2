//! From files to documents: which entries of a directory are indexed, how the
//! text is taken out of a page, and how the terms of a text are counted.

use vstd::prelude::*;
use vstd::string::StringExecFns;
use crate::chars::views;
use crate::doc::{count_terms, term_counts, DocumentTermsFrequencies};
use crate::lexer::{terms, tokenize};
use crate::model::{index_after, Model};
use crate::table::str_eq;

verus! {

/// A node of a parsed page: what it is, and in how many nodes it lies.
#[derive(Debug)]
pub enum PageNode {
    /// An element, with its name.
    Element { depth: usize, name: String },
    /// A piece of text.
    Text { depth: usize, text: String },
    /// Anything else: the document itself, a comment, a doctype.
    Other { depth: usize },
}

/// What a node of a parsed page says.
pub ghost enum PageNodeView {
    Element { depth: usize, name: Seq<char> },
    Text { depth: usize, text: Seq<char> },
    Other { depth: usize },
}

impl View for PageNode {
    type V = PageNodeView;

    open spec fn view(&self) -> PageNodeView {
        match self {
            PageNode::Element { depth, name } => PageNodeView::Element { depth: *depth, name: name@ },
            PageNode::Text { depth, text } => PageNodeView::Text { depth: *depth, text: text@ },
            PageNode::Other { depth } => PageNodeView::Other { depth: *depth },
        }
    }
}

/// What the nodes `nodes` say, in order.
pub open spec fn node_views(nodes: Seq<PageNode>) -> Seq<PageNodeView> {
    nodes.map_values(|n: PageNode| n@)
}

/// The nodes of the tree that the page `html` parses to, in document order:
/// each node before the nodes that lie in it.
pub uninterp spec fn page_nodes(html: Seq<char>) -> Seq<PageNodeView>;

/// `Html::parse_document` of scraper, and for each node of its tree, as
/// `descendants` of the root walks them, the number of its `ancestors` and
/// its `value`: the nodes of the parsed page, which this library only
/// names. Parsing does not fail: a broken page gives the tree that could be
/// made of it.
#[verifier::external_body]
fn parse_page(html: &str) -> (nodes: Vec<PageNode>)
    ensures
        node_views(nodes@) == page_nodes(html@),
{
    let document = scraper::Html::parse_document(html);
    let nodes = document.tree.root().descendants();
    nodes.map(|node| {
        let depth = node.ancestors().count();
        match node.value() {
            scraper::Node::Element(element) => PageNode::Element { depth, name: element.name().to_string() },
            scraper::Node::Text(text) => PageNode::Text { depth, text: text.to_string() },
            _ => PageNode::Other { depth },
        }
    }).collect()
}

/// Whether the text in an element of this name is no content of the page:
/// scripts and style sheets are not.
pub open spec fn is_skipped(name: Seq<char>) -> bool {
    name == "script"@ || name == "style"@
}

/// The number of nodes that `node` lies in.
pub open spec fn depth_of(node: PageNodeView) -> usize {
    match node {
        PageNodeView::Element { depth, .. } => depth,
        PageNodeView::Text { depth, .. } => depth,
        PageNodeView::Other { depth } => depth,
    }
}

/// Where the walk was inside a skipped element at the depth `inside`, it
/// still is at a node that lies deeper, and has left it at any other.
pub open spec fn still_inside(inside: Option<usize>, node: PageNodeView) -> Option<usize> {
    match inside {
        Some(d) => if depth_of(node) > d {
            Some(d)
        } else {
            None
        },
        None => None,
    }
}

/// The texts among `nodes` that are content, in order: every text that does
/// not lie in a skipped element. `inside` is the depth of the skipped
/// element that the walk is in when it comes to `nodes`, if it is in one.
pub open spec fn content_texts(nodes: Seq<PageNodeView>, inside: Option<usize>) -> Seq<Seq<char>>
    decreases nodes.len(),
{
    if nodes.len() == 0 {
        Seq::empty()
    } else {
        let rest = nodes.drop_first();
        match still_inside(inside, nodes[0]) {
            Some(d) => content_texts(rest, Some(d)),
            None => match nodes[0] {
                PageNodeView::Element { depth, name } => content_texts(
                    rest,
                    if is_skipped(name) {
                        Some(depth)
                    } else {
                        None
                    },
                ),
                PageNodeView::Text { text, .. } => seq![text] + content_texts(rest, None),
                PageNodeView::Other { .. } => content_texts(rest, None),
            },
        }
    }
}

/// Picks the texts that are content out of the nodes of a page.
pub fn content_of(nodes: &Vec<PageNode>) -> (texts: Vec<String>)
    ensures
        views(texts@) == content_texts(node_views(nodes@), None),
{
    let ghost all = node_views(nodes@);
    let mut texts: Vec<String> = Vec::new();
    let mut inside: Option<usize> = None;
    let mut i: usize = 0;
    proof {
        assert(all.skip(0) == all);
        assert(views(texts@) + content_texts(all, None) == content_texts(all, None));
    }
    while i < nodes.len()
        invariant
            i <= nodes@.len(),
            all == node_views(nodes@),
            views(texts@) + content_texts(all.skip(i as int), inside) == content_texts(all, None),
        decreases nodes@.len() - i,
    {
        let ghost before = views(texts@);
        let ghost here = all.skip(i as int);
        proof {
            assert(here[0] == nodes@[i as int]@);
            assert(here.drop_first() == all.skip(i + 1));
        }
        let node = &nodes[i];
        let depth = match node {
            PageNode::Element { depth, .. } => *depth,
            PageNode::Text { depth, .. } => *depth,
            PageNode::Other { depth } => *depth,
        };
        inside = match inside {
            Some(d) => if depth > d {
                Some(d)
            } else {
                None
            },
            None => None,
        };
        if inside.is_none() {
            match node {
                PageNode::Element { depth, name } => {
                    if str_eq(name.as_str(), "script") || str_eq(name.as_str(), "style") {
                        inside = Some(*depth);
                    }
                },
                PageNode::Text { text, .. } => {
                    proof {
                        assert(views(texts@.push(*text)) == before.push(text@));
                        assert(before.push(text@) + content_texts(all.skip(i + 1), None) == before
                            + content_texts(here, None));
                    }
                    texts.push(text.clone());
                },
                PageNode::Other { .. } => {},
            }
        }
        i += 1;
    }
    proof {
        assert(views(texts@) + Seq::<Seq<char>>::empty() == views(texts@));
    }
    texts
}

/// `pieces` in one sequence, with `separator` between each two.
pub open spec fn joined(pieces: Seq<Seq<char>>, separator: Seq<char>) -> Seq<char>
    decreases pieces.len(),
{
    if pieces.len() == 0 {
        Seq::empty()
    } else if pieces.len() == 1 {
        pieces[0]
    } else {
        joined(pieces.drop_last(), separator) + separator + pieces.last()
    }
}

/// Joins `pieces` into one string, with `separator` between each two.
pub fn join(pieces: &Vec<String>, separator: &str) -> (text: String)
    ensures
        text@ == joined(views(pieces@), separator@),
{
    let mut text = String::new();
    let mut i: usize = 0;
    while i < pieces.len()
        invariant
            i <= pieces@.len(),
            text@ == joined(views(pieces@).take(i as int), separator@),
        decreases pieces@.len() - i,
    {
        proof {
            let now = views(pieces@).take(i + 1);
            assert(now.drop_last() == views(pieces@).take(i as int));
            assert(now.last() == pieces@[i as int]@);
            if i == 0 {
                assert(text@ + pieces@[0]@ == pieces@[0]@);
            }
        }
        if i > 0 {
            text.append(separator);
        }
        text.append(pieces[i].as_str());
        i += 1;
    }
    proof {
        assert(views(pieces@).take(i as int) == views(pieces@));
    }
    text
}

/// The plain text of the page `html`: its texts outside scripts and style
/// sheets, in document order, joined by single spaces.
pub open spec fn page_text(html: Seq<char>) -> Seq<char> {
    joined(content_texts(page_nodes(html), None), seq![' '])
}

/// Takes the plain text out of the page `html`. Every page has one: one
/// that is broken is read as far as it can be.
pub fn extract_text_from_html(html: &str) -> (text: Option<String>)
    ensures
        text is Some,
        text->0@ == page_text(html@),
{
    let space = " ";
    proof {
        reveal_strlit(" ");
        assert(space@ =~= seq![' ']);
    }
    let nodes = parse_page(html);
    let texts = content_of(&nodes);
    Some(join(&texts, space))
}

/// What is done with an entry of a directory.
#[derive(Clone, Copy, Debug, PartialEq, Eq, Structural)]
pub enum Action {
    /// A directory: its entries are walked in turn.
    Descend,
    /// A page: its text is taken out and indexed.
    Extract,
    /// A file of a kind that is not indexed.
    SkipUnsupported,
    /// A file without an extension.
    SkipWithoutExtension,
}

/// The action that an entry calls for, by what it is and by its extension.
pub open spec fn action_of(is_dir: bool, extension: Option<Seq<char>>) -> Action {
    if is_dir {
        Action::Descend
    } else {
        match extension {
            Some(e) => if e == "html"@ {
                Action::Extract
            } else {
                Action::SkipUnsupported
            },
            None => Action::SkipWithoutExtension,
        }
    }
}

/// Decides what is done with an entry of a directory.
pub fn action_for(is_dir: bool, extension: Option<&str>) -> (action: Action)
    ensures
        action == action_of(
            is_dir,
            match extension {
                Some(e) => Some(e@),
                None => None,
            },
        ),
{
    if is_dir {
        return Action::Descend;
    }
    match extension {
        Some(e) => {
            if str_eq(e, "html") {
                Action::Extract
            } else {
                Action::SkipUnsupported
            }
        },
        None => Action::SkipWithoutExtension,
    }
}

/// A file that the walk of a directory found.
#[derive(Debug)]
pub struct SourceFile {
    /// Its path, by which its document is known.
    pub path: String,
    /// The extension of its name, if it has one.
    pub extension: Option<String>,
    /// What was read from it; `None` where it was not or could not be read.
    pub content: Option<String>,
}

/// What became of a file.
#[derive(Clone, Copy, Debug, PartialEq, Eq, Structural)]
pub enum Outcome {
    /// Its text was indexed.
    Indexed,
    /// It is a page that could not be read.
    NotExtracted,
    /// It is of a kind that is not indexed.
    UnsupportedExtension,
    /// Its name has no extension.
    NoExtension,
}

/// The extension of `file`, as characters.
pub open spec fn extension_of(file: SourceFile) -> Option<Seq<char>> {
    match file.extension {
        Some(e) => Some(e@),
        None => None,
    }
}

/// The text that is indexed for `file`: that of its content, where it is a
/// page that was read.
pub open spec fn indexed_text(file: SourceFile) -> Option<Seq<char>> {
    if action_of(false, extension_of(file)) == Action::Extract {
        match file.content {
            Some(html) => Some(page_text(html@)),
            None => None,
        }
    } else {
        None
    }
}

/// What becomes of `file`.
pub open spec fn outcome_of(file: SourceFile) -> Outcome {
    match action_of(false, extension_of(file)) {
        Action::Extract => if indexed_text(file) is Some {
            Outcome::Indexed
        } else {
            Outcome::NotExtracted
        },
        Action::SkipUnsupported => Outcome::UnsupportedExtension,
        _ => Outcome::NoExtension,
    }
}

/// Takes out of `file` the text to index, or says why there is none.
pub fn text_to_index(file: &SourceFile) -> (text: Result<String, Outcome>)
    ensures
        text is Ok == indexed_text(*file) is Some,
        text is Ok ==> text->Ok_0@ == indexed_text(*file)->0,
        text is Err ==> text->Err_0 == outcome_of(*file),
        text is Ok ==> outcome_of(*file) == Outcome::Indexed,
{
    let extension = match &file.extension {
        Some(e) => Some(e.as_str()),
        None => None,
    };
    match action_for(false, extension) {
        Action::Extract => {
            match &file.content {
                Some(html) => match extract_text_from_html(html.as_str()) {
                    Some(text) => Ok(text),
                    None => Err(Outcome::NotExtracted),
                },
                None => Err(Outcome::NotExtracted),
            }
        },
        Action::SkipUnsupported => Err(Outcome::UnsupportedExtension),
        _ => Err(Outcome::NoExtension),
    }
}

/// Builds the model of the files that the walk of a directory found, from
/// nothing: each page that was read and holds text is indexed under its
/// path. Says of each file what became of it.
pub fn index_dir(files: &Vec<SourceFile>) -> (indexed: (Model, Vec<Outcome>))
    ensures
        indexed.0.wf(),
        indexed.0@ == index_after(Map::empty(), files@),
        indexed.1@.len() == files@.len(),
        forall|i: int| 0 <= i < files@.len() ==> indexed.1@[i] == outcome_of(#[trigger] files@[i]),
{
    let mut model = Model::new();
    let outcomes = model.add_documents(files);
    (model, outcomes)
}

/// How often each term occurs in `text`.
pub fn index_text(text: &str) -> (dtf: DocumentTermsFrequencies)
    ensures
        dtf.wf(),
        dtf@ == term_counts(terms(text@)),
{
    let words = tokenize(text);
    count_terms(&words).into_dtf()
}

} // verus!
