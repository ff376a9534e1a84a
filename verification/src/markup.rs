//! The tags and text of a fragment: read as a run of tokens, and built into a tree.

use crate::text::opt_text;
use vstd::prelude::*;

verus! {

/// One token of a fragment.
#[derive(Debug, PartialEq, Eq)]
pub enum XmlToken {
    /// An opening tag.
    Start { prefix: Option<String>, name: String },
    /// A closing tag.
    End,
    /// Text between tags, without the white space around it.
    Text(String),
    /// Anything else: the start and the end of the document, a comment, a declaration.
    Other,
}

/// What a token holds.
pub enum TokenView {
    Start { prefix: Option<Seq<char>>, name: Seq<char> },
    End,
    Text(Seq<char>),
    Other,
}

impl View for XmlToken {
    type V = TokenView;

    open spec fn view(&self) -> TokenView {
        match *self {
            XmlToken::Start { prefix, name } => TokenView::Start {
                prefix: opt_text(prefix),
                name: name@,
            },
            XmlToken::End => TokenView::End,
            XmlToken::Text(text) => TokenView::Text(text@),
            XmlToken::Other => TokenView::Other,
        }
    }
}

/// What each token of a run holds.
pub open spec fn token_views(tokens: Seq<XmlToken>) -> Seq<TokenView> {
    Seq::new(tokens.len(), |i: int| tokens[i]@)
}

/// The error of the `xml` crate's reader; nothing is read from it.
#[verifier::external_type_specification]
#[verifier::external_body]
pub struct ExXmlError(xml::reader::Error);

/// The tokens that the `xml` crate's reader finds in `text`, up to the end of
/// the document; nothing where it fails on the text.
pub uninterp spec fn xml_events(text: Seq<char>) -> Option<Seq<TokenView>>;

/// Reads `text` with `xml::EventReader`, set up to trim white space, to hand
/// out character data as text and to join neighbouring texts. Each event
/// becomes one token; the reader's first error ends the run and is handed
/// back. What comes out depends on the text alone.
#[verifier::external_body]
pub(crate) fn read_tokens(text: &str) -> (tokens: Result<Vec<XmlToken>, xml::reader::Error>)
    ensures
        match tokens {
            Ok(tokens) => xml_events(text@) == Some(token_views(tokens@)),
            Err(_) => xml_events(text@) is None,
        },
{
    let config = xml::ParserConfig::new().trim_whitespace(true).whitespace_to_characters(true)
        .cdata_to_characters(true).ignore_comments(true).coalesce_characters(true);
    let mut tokens = Vec::new();
    for event in config.create_reader(text.as_bytes()) {
        tokens.push(match event? {
            xml::reader::XmlEvent::StartElement { name, .. } => {
                XmlToken::Start { prefix: name.prefix, name: name.local_name }
            },
            xml::reader::XmlEvent::EndElement { .. } => XmlToken::End,
            xml::reader::XmlEvent::Characters(text) => XmlToken::Text(text),
            xml::reader::XmlEvent::CData(text) => XmlToken::Text(text),
            _ => XmlToken::Other,
        });
    }
    Ok(tokens)
}

/// A node of the tree of a fragment: an element with what stands inside it, or text.
#[derive(Debug, PartialEq, Eq)]
pub enum XmlNode {
    Element { prefix: Option<String>, name: String, children: Vec<XmlNode> },
    Text(String),
}

/// What a node holds.
pub enum NodeView {
    Element { prefix: Option<Seq<char>>, name: Seq<char>, children: Seq<NodeView> },
    Text(Seq<char>),
}

/// What a node holds.
pub open spec fn node_view(node: XmlNode) -> NodeView
    decreases node,
{
    match node {
        XmlNode::Element { prefix, name, children } => NodeView::Element {
            prefix: opt_text(prefix),
            name: name@,
            children: node_views(children@),
        },
        XmlNode::Text(text) => NodeView::Text(text@),
    }
}

/// What each node of a run holds.
pub open spec fn node_views(nodes: Seq<XmlNode>) -> Seq<NodeView>
    decreases nodes,
{
    Seq::new(
        nodes.len(),
        |i: int|
            if 0 <= i < nodes.len() {
                node_view(nodes[i])
            } else {
                arbitrary()
            },
    )
}

impl View for XmlNode {
    type V = NodeView;

    open spec fn view(&self) -> NodeView {
        node_view(*self)
    }
}

/// An element whose closing tag has not come yet.
pub struct OpenElement {
    pub prefix: Option<String>,
    pub name: String,
    pub children: Vec<XmlNode>,
}

/// What an open element holds.
pub struct OpenView {
    pub prefix: Option<Seq<char>>,
    pub name: Seq<char>,
    pub children: Seq<NodeView>,
}

impl View for OpenElement {
    type V = OpenView;

    open spec fn view(&self) -> OpenView {
        OpenView {
            prefix: opt_text(self.prefix),
            name: self.name@,
            children: node_views(self.children@),
        }
    }
}

/// What each open element of a run holds.
pub open spec fn open_views(open: Seq<OpenElement>) -> Seq<OpenView> {
    Seq::new(open.len(), |i: int| open[i]@)
}

/// How far the tree is built.
pub enum Build {
    /// The elements that are open, the outermost first; none before the root opens.
    Open(Seq<OpenView>),
    /// The root is closed: this is the tree.
    Done(NodeView),
    /// The tokens do not form a tree.
    Failed,
}

/// The open element as a node, once its closing tag has come.
pub open spec fn closed(open: OpenView) -> NodeView {
    NodeView::Element { prefix: open.prefix, name: open.name, children: open.children }
}

/// The open elements after `node` came to stand inside the innermost of them.
pub open spec fn with_child(open: Seq<OpenView>, node: NodeView) -> Seq<OpenView> {
    open.drop_last().push(
        OpenView {
            prefix: open.last().prefix,
            name: open.last().name,
            children: open.last().children.push(node),
        },
    )
}

/// The build after one more token. Text or a closing tag before the root
/// opens is a failure; once the root is closed, nothing changes any more.
pub open spec fn build_step(build: Build, token: TokenView) -> Build {
    match build {
        Build::Open(open) => match token {
            TokenView::Other => build,
            TokenView::Start { prefix, name } => Build::Open(
                open.push(OpenView { prefix, name, children: Seq::empty() }),
            ),
            TokenView::Text(text) => if open.len() == 0 {
                Build::Failed
            } else {
                Build::Open(with_child(open, NodeView::Text(text)))
            },
            TokenView::End => if open.len() == 0 {
                Build::Failed
            } else if open.len() == 1 {
                Build::Done(closed(open.last()))
            } else {
                Build::Open(with_child(open.drop_last(), closed(open.last())))
            },
        },
        Build::Done(_) => build,
        Build::Failed => build,
    }
}

/// The build after all of `tokens`, each in its turn.
pub open spec fn build_of(tokens: Seq<TokenView>) -> Build
    decreases tokens.len(),
{
    if tokens.len() == 0 {
        Build::Open(Seq::empty())
    } else {
        build_step(build_of(tokens.drop_last()), tokens.last())
    }
}

/// The tree of the first element of `tokens`, where they hold a whole one.
pub open spec fn root_of(tokens: Seq<TokenView>) -> Option<NodeView> {
    match build_of(tokens) {
        Build::Done(root) => Some(root),
        _ => None,
    }
}

/// Builds the tree of the first element of `tokens`. There is none where
/// text or a closing tag comes before the first opening tag, or where the
/// tokens end before that element is closed. What follows the element is not read.
pub fn element_tree(tokens: Vec<XmlToken>) -> (root: Option<XmlNode>)
    ensures
        match root {
            Some(root) => root_of(token_views(tokens@)) == Some(root@),
            None => root_of(token_views(tokens@)) is None,
        },
{
    let ghost all = token_views(tokens@);
    let mut open: Vec<OpenElement> = Vec::new();
    let mut done: Option<XmlNode> = None;
    let mut failed = false;
    proof {
        assert(all.subrange(0, 0) =~= Seq::empty());
        assert(open_views(open@) =~= Seq::empty());
    }
    for token in it: tokens
        invariant
            it.seq() == tokens@,
            all == token_views(tokens@),
            build_of(all.subrange(0, it.index() as int)) == (if failed {
                Build::Failed
            } else {
                match done {
                    Some(root) => Build::Done(root@),
                    None => Build::Open(open_views(open@)),
                }
            }),
    {
        let ghost i = it.index() as int;
        let ghost before = open_views(open@);
        proof {
            assert(all.subrange(0, i + 1).drop_last() =~= all.subrange(0, i));
            assert(all.subrange(0, i + 1).last() == token@);
        }
        if !failed && done.is_none() {
            match token {
                XmlToken::Other => {},
                XmlToken::Start { prefix, name } => {
                    let element = OpenElement { prefix, name, children: Vec::new() };
                    proof {
                        assert(node_views(element.children@) =~= Seq::empty());
                    }
                    open.push(element);
                    proof {
                        assert(open_views(open@) =~= before.push(element@));
                    }
                },
                XmlToken::Text(text) => {
                    if open.len() == 0 {
                        failed = true;
                    } else {
                        let node = XmlNode::Text(text);
                        let last = open.len() - 1;
                        let ghost kids = open@[last as int].children@;
                        open[last].children.push(node);
                        proof {
                            assert(node_views(open@[last as int].children@) =~= node_views(
                                kids,
                            ).push(node@));
                            assert(open_views(open@) =~= with_child(before, node@));
                        }
                    }
                },
                XmlToken::End => {
                    match open.pop() {
                        None => {
                            failed = true;
                        },
                        Some(element) => {
                            let ghost rest = open_views(open@);
                            proof {
                                assert(rest =~= before.drop_last());
                                assert(before.last() == element@);
                            }
                            let node = XmlNode::Element {
                                prefix: element.prefix,
                                name: element.name,
                                children: element.children,
                            };
                            proof {
                                assert(node@ == closed(element@));
                            }
                            if open.len() == 0 {
                                done = Some(node);
                            } else {
                                let last = open.len() - 1;
                                let ghost kids = open@[last as int].children@;
                                open[last].children.push(node);
                                proof {
                                    assert(node_views(open@[last as int].children@)
                                        =~= node_views(kids).push(node@));
                                    assert(open_views(open@) =~= with_child(rest, node@));
                                }
                            }
                        },
                    }
                },
            }
        }
    }
    proof {
        assert(all.subrange(0, all.len() as int) =~= all);
    }
    if failed {
        None
    } else {
        done
    }
}

} // verus!
