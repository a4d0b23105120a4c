//! The structural parser: a flat token stream to a stream of syntax nodes in
//! which every bracketed block is a group with a stream of its own.
use crate::parse::Token;
use crate::transport::{chunked, Channel, ChunkedSender};
use crate::{ChunkedReceive, ChunkedReceiverWrapper};
use vstd::prelude::*;

verus! {

/// A syntax node as it travels between stages. A group carries the receiving
/// end of the channel on which its children travel.
#[derive(Debug)]
pub enum AstNode {
    IncrementPointer,
    DecrementPointer,
    IncrementData,
    DecrementData,
    Output,
    Input,
    Group(Channel<Self>),
}

/// A syntax node as a mathematical tree: a group holds its children.
pub enum SyntaxTree {
    IncrementPointer,
    DecrementPointer,
    IncrementData,
    DecrementData,
    Output,
    Input,
    Group(Seq<SyntaxTree>),
}

/// How the reading of one group's tokens came to its end.
#[derive(Clone, Copy, Debug, PartialEq, Eq, Structural)]
pub enum GroupEnd {
    /// At the closing bracket of the group.
    Closed,
    /// At the end of the tokens, with every group opened on the way closed.
    Exhausted,
    /// At the end of the tokens, inside a group opened on the way.
    Unclosed,
}

/// Why a token stream is no program. `at` counts the tokens in front of the
/// bracket that has no partner.
#[derive(Clone, Copy, Debug, PartialEq, Eq, Structural)]
pub enum ParseError {
    /// A closing bracket stands outside every group.
    UnmatchedClose { at: usize },
    /// The tokens end inside a group; the bracket is the one that opened the
    /// innermost such group.
    UnmatchedOpen { at: usize },
}

/// What reading one group's tokens gives: the group's children, the tokens
/// behind the group, and how the reading ended.
pub struct GroupParse {
    pub nodes: Seq<SyntaxTree>,
    pub rest: Seq<Token>,
    pub end: GroupEnd,
}

impl GroupParse {
    /// The same reading with `node` in front of the children.
    pub open spec fn after(self, node: SyntaxTree) -> GroupParse {
        GroupParse { nodes: seq![node] + self.nodes, rest: self.rest, end: self.end }
    }
}

/// The syntax tree of a token that is no bracket.
pub open spec fn leaf_of(token: Token) -> SyntaxTree {
    match token {
        Token::IncrementPointer => SyntaxTree::IncrementPointer,
        Token::DecrementPointer => SyntaxTree::DecrementPointer,
        Token::IncrementData => SyntaxTree::IncrementData,
        Token::DecrementData => SyntaxTree::DecrementData,
        Token::Output => SyntaxTree::Output,
        _ => SyntaxTree::Input,
    }
}

/// Reads the children of one group from the front of `tokens`: up to and
/// including the bracket that closes the group, or to the end of the tokens.
/// An opening bracket starts a nested group, which is read in the same way
/// from the tokens behind the bracket; the children of the surrounding group
/// go on behind the nested group's closing bracket.
pub open spec fn parse_group(tokens: Seq<Token>) -> GroupParse
    decreases tokens.len(),
{
    if tokens.len() == 0 {
        GroupParse { nodes: Seq::empty(), rest: tokens, end: GroupEnd::Exhausted }
    } else {
        let rest = tokens.skip(1);
        match tokens[0] {
            Token::RightBracket => GroupParse { nodes: Seq::empty(), rest, end: GroupEnd::Closed },
            Token::LeftBracket => {
                let inner = parse_group(rest);
                if inner.end == GroupEnd::Closed && inner.rest.len() < tokens.len() {
                    parse_group(inner.rest).after(SyntaxTree::Group(inner.nodes))
                } else {
                    GroupParse { nodes: Seq::empty(), rest: inner.rest, end: GroupEnd::Unclosed }
                }
            },
            token => parse_group(rest).after(leaf_of(token)),
        }
    }
}

/// Where in `tokens` the opening bracket of the innermost group stands that
/// is still open at the end of the tokens, counted in tokens from the front.
/// It says nothing where reading a group from `tokens` leaves no group open.
pub open spec fn open_at(tokens: Seq<Token>) -> int
    decreases tokens.len(),
{
    if tokens.len() == 0 {
        0
    } else {
        let rest = tokens.skip(1);
        match tokens[0] {
            Token::RightBracket => 0,
            Token::LeftBracket => {
                let inner = parse_group(rest);
                match inner.end {
                    GroupEnd::Closed => if inner.rest.len() < tokens.len() {
                        tokens.len() - inner.rest.len() + open_at(inner.rest)
                    } else {
                        0
                    },
                    GroupEnd::Exhausted => 0,
                    GroupEnd::Unclosed => 1 + open_at(rest),
                }
            },
            _ => 1 + open_at(rest),
        }
    }
}

/// Where the reading of a group from `tokens` came to its end, counted in
/// tokens from the front: at the closing bracket, at the end of the tokens,
/// or at the opening bracket of the innermost group left open.
pub open spec fn end_at(tokens: Seq<Token>) -> int {
    match parse_group(tokens).end {
        GroupEnd::Closed => tokens.len() - parse_group(tokens).rest.len() - 1,
        GroupEnd::Exhausted => tokens.len() as int,
        GroupEnd::Unclosed => open_at(tokens),
    }
}

/// The program that a token stream spells, or why it spells none: a closing
/// bracket outside every group, or a group still open where the tokens end,
/// whichever a reader meets first, with the place of the bracket.
pub open spec fn parse_program(tokens: Seq<Token>) -> Result<Seq<SyntaxTree>, ParseError> {
    let top = parse_group(tokens);
    match top.end {
        GroupEnd::Exhausted => Ok(top.nodes),
        GroupEnd::Closed => Err(ParseError::UnmatchedClose { at: end_at(tokens) as usize }),
        GroupEnd::Unclosed => Err(ParseError::UnmatchedOpen { at: end_at(tokens) as usize }),
    }
}

/// Reading a group leaves a suffix of the tokens, and a group that was closed
/// took at least its bracket.
pub proof fn lemma_parse_group_rest(tokens: Seq<Token>)
    ensures
        parse_group(tokens).rest.len() <= tokens.len(),
        parse_group(tokens).end == GroupEnd::Closed ==> parse_group(tokens).rest.len()
            < tokens.len(),
        parse_group(tokens).end != GroupEnd::Closed ==> parse_group(tokens).rest.len() == 0,
    decreases tokens.len(),
{
    if tokens.len() > 0 {
        let rest = tokens.skip(1);
        lemma_parse_group_rest(rest);
        if tokens[0] == Token::LeftBracket {
            let inner = parse_group(rest);
            if inner.end == GroupEnd::Closed {
                lemma_parse_group_rest(inner.rest);
            }
        }
    }
}

/// The place where a reading ended is a place among the tokens, and it holds
/// the bracket that the ending speaks of.
pub proof fn lemma_end_at(tokens: Seq<Token>)
    ensures
        0 <= end_at(tokens) <= tokens.len(),
        parse_group(tokens).end == GroupEnd::Closed ==> end_at(tokens) < tokens.len()
            && tokens[end_at(tokens)] == Token::RightBracket,
        parse_group(tokens).end == GroupEnd::Unclosed ==> end_at(tokens) < tokens.len()
            && tokens[end_at(tokens)] == Token::LeftBracket,
    decreases tokens.len(),
{
    if tokens.len() > 0 {
        let rest = tokens.skip(1);
        lemma_parse_group_rest(rest);
        lemma_end_at(rest);
        match tokens[0] {
            Token::RightBracket => {},
            Token::LeftBracket => {
                let inner = parse_group(rest);
                if inner.end == GroupEnd::Closed {
                    lemma_parse_group_rest(inner.rest);
                    lemma_end_at(inner.rest);
                    lemma_parse_group_suffix(rest);
                    let taken = tokens.len() - inner.rest.len();
                    let place = end_at(inner.rest);
                    assert(end_at(tokens) == taken + place);
                    if place < inner.rest.len() {
                        assert(inner.rest[place] == rest[taken - 1 + place]);
                        assert(rest[taken - 1 + place] == tokens[taken + place]);
                    }
                } else if inner.end == GroupEnd::Unclosed {
                    let place = end_at(rest);
                    assert(end_at(tokens) == 1 + place);
                    assert(rest[place] == tokens[1 + place]);
                }
            },
            _ => {
                let place = end_at(rest);
                assert(end_at(tokens) == 1 + place);
                if place < rest.len() {
                    assert(rest[place] == tokens[1 + place]);
                }
            },
        }
    }
}

/// The tokens behind a group are the last of the tokens that it was read
/// from.
pub proof fn lemma_parse_group_suffix(tokens: Seq<Token>)
    ensures
        parse_group(tokens).rest.len() <= tokens.len(),
        parse_group(tokens).rest == tokens.skip(
            tokens.len() - parse_group(tokens).rest.len(),
        ),
    decreases tokens.len(),
{
    let whole = parse_group(tokens);
    if tokens.len() == 0 {
        assert(whole.rest =~= tokens.skip(0));
    } else {
        let rest = tokens.skip(1);
        lemma_parse_group_suffix(rest);
        lemma_parse_group_rest(rest);
        match tokens[0] {
            Token::RightBracket => {},
            Token::LeftBracket => {
                let inner = parse_group(rest);
                if inner.end == GroupEnd::Closed {
                    lemma_parse_group_suffix(inner.rest);
                    let outer = parse_group(inner.rest);
                    assert(outer.rest =~= tokens.skip(tokens.len() - outer.rest.len()));
                } else {
                    assert(inner.rest =~= tokens.skip(tokens.len() - inner.rest.len()));
                }
            },
            _ => {
                assert(whole.rest =~= tokens.skip(tokens.len() - whole.rest.len()));
            },
        }
    }
}

/// The tokens that spell a tree: its symbol, or for a group the spelling of
/// its children between brackets.
pub open spec fn spell(node: SyntaxTree) -> Seq<Token>
    decreases node,
{
    match node {
        SyntaxTree::IncrementPointer => seq![Token::IncrementPointer],
        SyntaxTree::DecrementPointer => seq![Token::DecrementPointer],
        SyntaxTree::IncrementData => seq![Token::IncrementData],
        SyntaxTree::DecrementData => seq![Token::DecrementData],
        SyntaxTree::Output => seq![Token::Output],
        SyntaxTree::Input => seq![Token::Input],
        SyntaxTree::Group(children) => seq![Token::LeftBracket] + spell_all(children)
            + seq![Token::RightBracket],
    }
}

/// The tokens that spell a run of trees, one after another.
pub open spec fn spell_all(nodes: Seq<SyntaxTree>) -> Seq<Token>
    decreases nodes,
{
    if nodes.len() == 0 {
        Seq::empty()
    } else {
        spell(nodes[0]) + spell_all(nodes.skip(1))
    }
}

/// What was read of a group spells the tokens that were read: the children,
/// spelled out, are the tokens up to the group's closing bracket, or all of
/// the tokens if they ended first.
pub proof fn lemma_parse_group_spells(tokens: Seq<Token>)
    ensures
        parse_group(tokens).end == GroupEnd::Closed ==> tokens == spell_all(
            parse_group(tokens).nodes,
        ) + seq![Token::RightBracket] + parse_group(tokens).rest,
        parse_group(tokens).end == GroupEnd::Exhausted ==> tokens == spell_all(
            parse_group(tokens).nodes,
        ),
    decreases tokens.len(),
{
    let whole = parse_group(tokens);
    if tokens.len() == 0 {
        assert(tokens =~= spell_all(whole.nodes));
    } else {
        let rest = tokens.skip(1);
        let close = seq![Token::RightBracket];
        assert(tokens =~= seq![tokens[0]] + rest);
        lemma_parse_group_rest(rest);
        lemma_parse_group_spells(rest);
        match tokens[0] {
            Token::RightBracket => {
                assert(tokens =~= spell_all(whole.nodes) + close + rest);
            },
            Token::LeftBracket => {
                let inner = parse_group(rest);
                if inner.end == GroupEnd::Closed {
                    let outer = parse_group(inner.rest);
                    lemma_parse_group_spells(inner.rest);
                    let group = SyntaxTree::Group(inner.nodes);
                    assert(whole.nodes[0] == group);
                    assert(whole.nodes.skip(1) =~= outer.nodes);
                    let body = seq![Token::LeftBracket] + spell_all(inner.nodes) + close;
                    assert(spell(group) == body);
                    assert(spell_all(whole.nodes) == spell(whole.nodes[0]) + spell_all(
                        whole.nodes.skip(1),
                    ));
                    assert(spell_all(whole.nodes) == body + spell_all(outer.nodes));
                    if outer.end == GroupEnd::Closed {
                        assert(tokens =~= spell_all(whole.nodes) + close + whole.rest);
                    }
                    if outer.end == GroupEnd::Exhausted {
                        assert(tokens =~= spell_all(whole.nodes));
                    }
                }
            },
            token => {
                let after = parse_group(rest);
                assert(spell(leaf_of(token)) == seq![token]);
                assert(whole.nodes[0] == leaf_of(token));
                assert(whole.nodes.skip(1) =~= after.nodes);
                assert(spell_all(whole.nodes) == seq![token] + spell_all(after.nodes));
                if after.end == GroupEnd::Closed {
                    assert(tokens =~= spell_all(whole.nodes) + close + whole.rest);
                }
                if after.end == GroupEnd::Exhausted {
                    assert(tokens =~= spell_all(whole.nodes));
                }
            },
        }
    }
}

/// Reading the spelling of trees gives the trees back: in front of any
/// tokens, a spelled run of trees is read as those trees, and the reading
/// goes on with the tokens behind them.
pub proof fn lemma_parse_group_of_spelling(nodes: Seq<SyntaxTree>, tail: Seq<Token>)
    ensures
        parse_group(spell_all(nodes) + tail).nodes == nodes + parse_group(tail).nodes,
        parse_group(spell_all(nodes) + tail).rest == parse_group(tail).rest,
        parse_group(spell_all(nodes) + tail).end == parse_group(tail).end,
    decreases nodes,
{
    let tokens = spell_all(nodes) + tail;
    let behind = parse_group(tail);
    if nodes.len() == 0 {
        assert(tokens =~= tail);
        assert(nodes + behind.nodes =~= behind.nodes);
    } else {
        let first = nodes[0];
        let more = nodes.skip(1);
        let onward = spell_all(more) + tail;
        assert(tokens =~= spell(first) + onward);
        lemma_parse_group_of_spelling(more, tail);
        match first {
            SyntaxTree::Group(children) => {
                let close = seq![Token::RightBracket] + onward;
                assert(tokens =~= seq![Token::LeftBracket] + (spell_all(children) + close));
                assert(tokens.skip(1) =~= spell_all(children) + close);
                lemma_parse_group_of_spelling(children, close);
                let inner = parse_group(tokens.skip(1));
                assert(close.skip(1) =~= onward);
                assert(inner.nodes =~= children);
                assert(inner.rest == onward);
                assert(inner.end == GroupEnd::Closed);
                lemma_parse_group_rest(tokens.skip(1));
                assert(parse_group(tokens) == parse_group(onward).after(first));
                assert(seq![first] + (more + behind.nodes) =~= nodes + behind.nodes);
            },
            _ => {
                assert(tokens.skip(1) =~= onward);
                assert(leaf_of(tokens[0]) == first);
                assert(parse_group(tokens) == parse_group(onward).after(first));
                assert(seq![first] + (more + behind.nodes) =~= nodes + behind.nodes);
            },
        }
    }
}

/// A program, spelled out, is the very token stream that it was parsed from.
pub proof fn lemma_program_spells_its_tokens(tokens: Seq<Token>)
    requires
        parse_program(tokens) is Ok,
    ensures
        spell_all(parse_program(tokens)->Ok_0) == tokens,
{
    lemma_parse_group_spells(tokens);
}

/// Every run of trees is the program that its spelling parses to: no unmatched
/// bracket is found in it, and no tree is lost or changed.
pub proof fn lemma_spelling_parses_to_its_program(nodes: Seq<SyntaxTree>)
    ensures
        parse_program(spell_all(nodes)) == Ok::<Seq<SyntaxTree>, ParseError>(nodes),
{
    let none = Seq::<Token>::empty();
    lemma_parse_group_of_spelling(nodes, none);
    assert(spell_all(nodes) + none =~= spell_all(nodes));
    assert(nodes + parse_group(none).nodes =~= nodes);
}

impl AstNode {
    /// The tree that this node stands for once every nested channel is read
    /// to its end.
    pub open spec fn tree(self) -> SyntaxTree
        decreases self,
    {
        match self {
            AstNode::IncrementPointer => SyntaxTree::IncrementPointer,
            AstNode::DecrementPointer => SyntaxTree::DecrementPointer,
            AstNode::IncrementData => SyntaxTree::IncrementData,
            AstNode::DecrementData => SyntaxTree::DecrementData,
            AstNode::Output => SyntaxTree::Output,
            AstNode::Input => SyntaxTree::Input,
            AstNode::Group(children) => SyntaxTree::Group(
                children.items().map_values(
                    |child: AstNode|
                        if decreases_to!(self => child) {
                            child.tree()
                        } else {
                            SyntaxTree::Output
                        },
                ),
            ),
        }
    }

    /// Whether every channel in this node, at any depth, carries its items in
    /// the batches that a transport of `chunk_size` makes of them.
    pub open spec fn batched(self, chunk_size: nat) -> bool
        decreases self,
    {
        match self {
            AstNode::Group(children) => {
                &&& children.wire() == chunked(children.items(), chunk_size)
                &&& forall|k: int|
                    0 <= k < children.items().len() ==> decreases_to!(self => children.items()[k])
                        && (#[trigger] children.items()[k]).batched(chunk_size)
            },
            _ => true,
        }
    }

    /// A group is batched if its channel is and every node on it is.
    pub proof fn lemma_group_batched(children: Channel<AstNode>, chunk_size: nat)
        requires
            children.wire() == chunked(children.items(), chunk_size),
            all_batched(children.items(), chunk_size),
        ensures
            AstNode::Group(children).batched(chunk_size),
    {
        let group = AstNode::Group(children);
        assert forall|k: int| 0 <= k < children.items().len() implies decreases_to!(group => #[trigger] children.items()[k]) by {
            children.lemma_items_decrease(k);
            assert(decreases_to!(group => group->Group_0));
        }
    }

    /// A group stands for the group of the trees of the nodes on its channel.
    pub proof fn lemma_group_tree(children: Channel<AstNode>)
        ensures
            AstNode::Group(children).tree() == SyntaxTree::Group(syntax_trees(children.items())),
    {
        let group = AstNode::Group(children);
        assert forall|k: int| 0 <= k < children.items().len() implies decreases_to!(group => #[trigger] children.items()[k]) by {
            children.lemma_items_decrease(k);
        }
        assert(group.tree()->Group_0 =~= syntax_trees(children.items()));
    }
}

/// What came of reading one group from a receiver.
#[derive(Debug)]
pub struct GroupRead {
    /// The channel that holds the group's children.
    pub children: Channel<AstNode>,
    /// How the reading ended.
    pub end: GroupEnd,
    /// How many tokens were read in front of the place where it ended: the
    /// closing bracket, the end of the tokens, or the opening bracket of the
    /// innermost group left open.
    pub at: usize,
}

impl AstNode {
    /// Reads the children of one group from `receiver` onto a fresh channel that
    /// batches by `chunk_size`, a nested group onto a channel of its own, and
    /// says how and where the reading ended. The channel holds the group's
    /// children unless a nested group was left open.
    pub fn parse_group(
        receiver: &mut ChunkedReceiverWrapper<Channel<Token>, Token>,
        chunk_size: usize,
    ) -> (result: GroupRead)
        requires
            chunk_size > 0,
            old(receiver).remaining().len() <= usize::MAX,
        ensures
            result.end == parse_group(old(receiver).remaining()).end,
            result.at == end_at(old(receiver).remaining()),
            final(receiver).remaining() == parse_group(old(receiver).remaining()).rest,
            result.end != GroupEnd::Unclosed ==> syntax_trees(result.children.items())
                == parse_group(old(receiver).remaining()).nodes,
            result.children.wire() == chunked(result.children.items(), chunk_size as nat),
            all_batched(result.children.items(), chunk_size as nat),
        decreases old(receiver).remaining().len(),
    {
        let ghost whole = parse_group(receiver.remaining());
        let mut sender = ChunkedSender::new(chunk_size);
        let mut read: usize = 0;
        assert(syntax_trees(sender.items()) + whole.nodes =~= whole.nodes);
        loop
            invariant
                whole == parse_group(old(receiver).remaining()),
                old(receiver).remaining().len() <= usize::MAX,
                read == old(receiver).remaining().len() - receiver.remaining().len(),
                end_at(old(receiver).remaining()) == read + end_at(receiver.remaining()),
                sender.wf(),
                sender.chunk_size() == chunk_size,
                all_batched(sender.items(), chunk_size as nat),
                whole.end == parse_group(receiver.remaining()).end,
                whole.rest == parse_group(receiver.remaining()).rest,
                whole.end != GroupEnd::Unclosed ==> whole.nodes == syntax_trees(sender.items())
                    + parse_group(receiver.remaining()).nodes,
            decreases receiver.remaining().len(),
        {
            let ghost ahead = receiver.remaining();
            let ghost done = sender.items();
            let ghost here = parse_group(ahead);
            proof {
                lemma_parse_group_rest(ahead);
            }
            let node = match receiver.next() {
                None => {
                    assert(syntax_trees(done) + here.nodes =~= syntax_trees(done));
                    return GroupRead { children: sender.flush(), end: GroupEnd::Exhausted, at: read };
                },
                Some(Token::RightBracket) => {
                    assert(syntax_trees(done) + here.nodes =~= syntax_trees(done));
                    return GroupRead { children: sender.flush(), end: GroupEnd::Closed, at: read };
                },
                Some(Token::LeftBracket) => {
                    proof {
                        lemma_parse_group_rest(ahead.skip(1));
                        lemma_end_at(ahead.skip(1));
                    }
                    let inner = Self::parse_group(receiver, chunk_size);
                    match inner.end {
                        GroupEnd::Closed => {
                            proof {
                                Self::lemma_group_tree(inner.children);
                                Self::lemma_group_batched(inner.children, chunk_size as nat);
                            }
                            read = read + inner.at + 1;
                            AstNode::Group(inner.children)
                        },
                        GroupEnd::Exhausted => {
                            return GroupRead {
                                children: sender.flush(),
                                end: GroupEnd::Unclosed,
                                at: read,
                            };
                        },
                        GroupEnd::Unclosed => {
                            return GroupRead {
                                children: sender.flush(),
                                end: GroupEnd::Unclosed,
                                at: read + 1 + inner.at,
                            };
                        },
                    }
                },
                Some(Token::IncrementPointer) => AstNode::IncrementPointer,
                Some(Token::DecrementPointer) => AstNode::DecrementPointer,
                Some(Token::IncrementData) => AstNode::IncrementData,
                Some(Token::DecrementData) => AstNode::DecrementData,
                Some(Token::Output) => AstNode::Output,
                Some(Token::Input) => AstNode::Input,
            };
            read = read + 1;
            sender.send(node);
            proof {
                let next = parse_group(receiver.remaining());
                assert(here == next.after(node.tree()));
                assert(syntax_trees(done.push(node)) =~= syntax_trees(done).push(node.tree()));
                assert(syntax_trees(done) + here.nodes =~= syntax_trees(sender.items())
                    + next.nodes);
            }
        }
    }

    /// Reads a whole program from `receiver` onto a fresh channel that batches
    /// by `chunk_size`. A token stream with a bracket that has no partner is
    /// refused, with the place of the bracket.
    pub fn parse(
        receiver: &mut ChunkedReceiverWrapper<Channel<Token>, Token>,
        chunk_size: usize,
    ) -> (result: Result<Channel<AstNode>, ParseError>)
        requires
            chunk_size > 0,
            old(receiver).remaining().len() <= usize::MAX,
        ensures
            match parse_program(old(receiver).remaining()) {
                Ok(nodes) => {
                    &&& result is Ok
                    &&& syntax_trees(result->Ok_0.items()) == nodes
                    &&& result->Ok_0.wire() == chunked(result->Ok_0.items(), chunk_size as nat)
                    &&& all_batched(result->Ok_0.items(), chunk_size as nat)
                },
                Err(error) => result == Err::<Channel<AstNode>, ParseError>(error),
            },
            final(receiver).remaining() == parse_group(old(receiver).remaining()).rest,
    {
        let read = Self::parse_group(receiver, chunk_size);
        match read.end {
            GroupEnd::Exhausted => Ok(read.children),
            GroupEnd::Closed => Err(ParseError::UnmatchedClose { at: read.at }),
            GroupEnd::Unclosed => Err(ParseError::UnmatchedOpen { at: read.at }),
        }
    }
}

/// Whether every node of a run is batched by `chunk_size`.
pub open spec fn all_batched(nodes: Seq<AstNode>, chunk_size: nat) -> bool {
    forall|k: int| 0 <= k < nodes.len() ==> (#[trigger] nodes[k]).batched(chunk_size)
}

/// The trees of a run of nodes, node by node.
pub open spec fn syntax_trees(nodes: Seq<AstNode>) -> Seq<SyntaxTree> {
    nodes.map_values(|node: AstNode| node.tree())
}

} // verus!
