use bfrs::ast::{AstNode, GroupEnd, ParseError};
use bfrs::collect::CollectedAstNode;
use bfrs::deduplicate::{DeduplicatedAstNode, Pending};
use bfrs::optimizations::collapse_unbounded::collapse_unbounded;
use bfrs::parse::Token;
use bfrs::pipeline::compile;
use bfrs::transport::{Channel, ChunkedSender};
use bfrs::{ChunkedReceive, ChunkedReceiverWrapper};
use std::collections::VecDeque;

fn tokens_of(source: &str, chunk_size: usize) -> Vec<Token> {
    let mut receiver = ChunkedReceiverWrapper::new(Token::parse(source.as_bytes(), chunk_size));
    let mut tokens = Vec::new();
    while let Some(token) = receiver.next() {
        tokens.push(token);
    }
    tokens
}

fn tree_of(source: &str, chunk_size: usize) -> Result<VecDeque<CollectedAstNode>, ParseError> {
    compile(source.as_bytes(), chunk_size, 0)
}

fn pointer(offset: isize) -> CollectedAstNode {
    CollectedAstNode::ModifyPointer { offset }
}

fn data(new_data: isize) -> CollectedAstNode {
    CollectedAstNode::ModifyData { new_data }
}

fn group(contents: Vec<CollectedAstNode>) -> CollectedAstNode {
    CollectedAstNode::Group { contents: VecDeque::from(contents) }
}

fn tree(nodes: Vec<CollectedAstNode>) -> Result<VecDeque<CollectedAstNode>, ParseError> {
    Ok(VecDeque::from(nodes))
}

#[test]
fn tokenizer_maps_the_eight_symbols_in_order() {
    assert_eq!(
        tokens_of("+-><.,[]", 64),
        vec![
            Token::IncrementData,
            Token::DecrementData,
            Token::IncrementPointer,
            Token::DecrementPointer,
            Token::Output,
            Token::Input,
            Token::LeftBracket,
            Token::RightBracket,
        ]
    );
}

#[test]
fn tokenizer_skips_commentary() {
    assert_eq!(tokens_of("+ #comment\n-", 64), vec![Token::IncrementData, Token::DecrementData]);
}

#[test]
fn tokens_of_a_text_are_those_of_its_parts_in_order() {
    let front = "+[ comment >";
    let back = "<, more ].";
    let mut expected = tokens_of(front, 64);
    expected.extend(tokens_of(back, 64));
    assert_eq!(tokens_of("+[ comment ><, more ].", 64), expected);
    assert_eq!(expected.len(), 7);
}

#[test]
fn tokenizer_of_nothing_is_nothing() {
    assert_eq!(tokens_of("", 64), Vec::<Token>::new());
    assert_eq!(tokens_of("no symbols here", 3), Vec::<Token>::new());
}

#[test]
fn tokenizer_does_not_look_at_nesting() {
    assert_eq!(
        tokens_of("]][", 2),
        vec![Token::RightBracket, Token::RightBracket, Token::LeftBracket]
    );
}

#[test]
fn from_byte_knows_symbols_only() {
    assert_eq!(Token::from_byte(b'>'), Some(Token::IncrementPointer));
    assert_eq!(Token::from_byte(b'<'), Some(Token::DecrementPointer));
    assert_eq!(Token::from_byte(b'+'), Some(Token::IncrementData));
    assert_eq!(Token::from_byte(b'-'), Some(Token::DecrementData));
    assert_eq!(Token::from_byte(b'.'), Some(Token::Output));
    assert_eq!(Token::from_byte(b','), Some(Token::Input));
    assert_eq!(Token::from_byte(b'['), Some(Token::LeftBracket));
    assert_eq!(Token::from_byte(b']'), Some(Token::RightBracket));
    assert_eq!(Token::from_byte(b'a'), None);
    assert_eq!(Token::from_byte(0), None);
    assert_eq!(Token::from_byte(255), None);
}

#[test]
fn tokenizer_batches_by_chunk_size() {
    let mut channel = Token::parse(b"+++++", 2);
    assert_eq!(channel.recv().unwrap().len(), 2);
    assert_eq!(channel.recv().unwrap().len(), 2);
    assert_eq!(channel.recv().unwrap().len(), 1);
    assert!(channel.recv().is_none());
}

#[test]
fn normalizer_merges_a_run_into_its_sum() {
    assert_eq!(tree_of("+++--", 64), tree(vec![data(1)]));
}

#[test]
fn normalizer_drops_a_run_that_cancels() {
    assert_eq!(tree_of("++--", 64), tree(vec![]));
}

#[test]
fn normalizer_merges_pointer_runs() {
    assert_eq!(tree_of(">>><", 64), tree(vec![pointer(2)]));
    assert_eq!(tree_of("<<<", 64), tree(vec![pointer(-3)]));
    assert_eq!(tree_of("><", 64), tree(vec![]));
}

#[test]
fn normalizer_ends_a_run_at_a_step_of_the_other_kind() {
    assert_eq!(tree_of("++>>--", 64), tree(vec![data(2), pointer(2), data(-2)]));
}

#[test]
fn normalizer_ends_a_run_at_input_and_output() {
    assert_eq!(
        tree_of("++.++,++", 64),
        tree(vec![
            data(2),
            CollectedAstNode::Output,
            data(2),
            CollectedAstNode::Input,
            data(2),
        ])
    );
}

#[test]
fn normalizer_drops_a_cancelled_run_before_output() {
    assert_eq!(tree_of("+-.", 64), tree(vec![CollectedAstNode::Output]));
}

#[test]
fn cancelled_run_between_two_runs_leaves_them_apart() {
    assert_eq!(tree_of(">+->", 64), tree(vec![pointer(1), pointer(1)]));
}

#[test]
fn normalizer_starts_afresh_inside_and_behind_a_group() {
    assert_eq!(
        tree_of("++[++]++", 64),
        tree(vec![data(2), group(vec![data(2)]), data(2)])
    );
    assert_eq!(tree_of("+[-]-", 64), tree(vec![data(1), group(vec![data(-1)]), data(-1)]));
}

#[test]
fn runs_merge_across_batches() {
    assert_eq!(tree_of("+++++", 1), tree(vec![data(5)]));
    assert_eq!(tree_of("+++++", 2), tree(vec![data(5)]));
}

#[test]
fn nested_group_round_trip() {
    assert_eq!(
        tree_of("+[>+<-].", 64),
        tree(vec![
            data(1),
            group(vec![pointer(1), data(1), pointer(-1), data(-1)]),
            CollectedAstNode::Output,
        ])
    );
}

#[test]
fn group_bodies_are_normalized_too() {
    assert_eq!(
        tree_of("[>>++[--<<]+-]", 64),
        tree(vec![group(vec![pointer(2), data(2), group(vec![data(-2), pointer(-2)])])])
    );
}

#[test]
fn empty_group_stays() {
    assert_eq!(tree_of("[]", 64), tree(vec![group(vec![])]));
    assert_eq!(tree_of("[[]]", 64), tree(vec![group(vec![group(vec![])])]));
}

#[test]
fn chunk_size_does_not_change_the_tree() {
    let source = "++[>+[-<+>]<-]>>,.<<[[-]>+<]+-+-.";
    let reference = tree_of(source, 64);
    assert!(reference.is_ok());
    for chunk_size in [1usize, 2, 3, 8, 64, 1000] {
        assert_eq!(tree_of(source, chunk_size), reference);
    }
}

#[test]
fn optimization_level_does_not_change_the_tree() {
    let source = "+[>+<-].[-]";
    assert_eq!(compile(source.as_bytes(), 8, 1), compile(source.as_bytes(), 8, 0));
}

#[test]
fn collapse_unbounded_hands_the_program_back() {
    let nodes = VecDeque::from(vec![data(1), group(vec![data(-1)]), CollectedAstNode::Output]);
    let same = VecDeque::from(vec![data(1), group(vec![data(-1)]), CollectedAstNode::Output]);
    assert_eq!(collapse_unbounded(nodes), same);
}

#[test]
fn closing_bracket_outside_a_group_is_refused() {
    assert_eq!(tree_of("]", 64), Err(ParseError::UnmatchedClose { at: 0 }));
    assert_eq!(tree_of("+[-]]+", 64), Err(ParseError::UnmatchedClose { at: 4 }));
    assert_eq!(tree_of("][", 64), Err(ParseError::UnmatchedClose { at: 0 }));
    assert_eq!(tree_of("[[]]+]", 2), Err(ParseError::UnmatchedClose { at: 5 }));
}

#[test]
fn group_open_at_the_end_is_refused() {
    assert_eq!(tree_of("[", 64), Err(ParseError::UnmatchedOpen { at: 0 }));
    assert_eq!(tree_of("+[-[+]", 64), Err(ParseError::UnmatchedOpen { at: 1 }));
    assert_eq!(tree_of("[[[", 1), Err(ParseError::UnmatchedOpen { at: 2 }));
    assert_eq!(tree_of("+[-]+[", 64), Err(ParseError::UnmatchedOpen { at: 5 }));
    assert_eq!(tree_of("[[][]+[-]", 3), Err(ParseError::UnmatchedOpen { at: 0 }));
    assert_eq!(tree_of("+[[][", 3), Err(ParseError::UnmatchedOpen { at: 4 }));
}

#[test]
fn the_first_bracket_without_partner_is_reported() {
    assert_eq!(tree_of("+]+[", 64), Err(ParseError::UnmatchedClose { at: 1 }));
    assert_eq!(tree_of("[]][", 64), Err(ParseError::UnmatchedClose { at: 2 }));
}

#[test]
fn error_places_count_tokens_not_bytes() {
    let source = "a+ b[ c- d] e] f";
    assert_eq!(tree_of(source, 64), Err(ParseError::UnmatchedClose { at: 4 }));
    assert_eq!(Token::locate(source.as_bytes(), 4), Some(13));
}

#[test]
fn locate_finds_the_byte_of_a_token() {
    let source = b"+ #comment\n-";
    assert_eq!(Token::locate(source, 0), Some(0));
    assert_eq!(Token::locate(source, 1), Some(11));
    assert_eq!(Token::locate(source, 2), None);
    assert_eq!(Token::locate(b"", 0), None);
    assert_eq!(Token::locate(b"abc", 0), None);
    assert_eq!(Token::locate(b"ab.", 0), Some(2));
}

#[test]
fn parse_group_stops_behind_its_closing_bracket() {
    let mut receiver = ChunkedReceiverWrapper::new(Token::parse(b"+]-", 64));
    let read = AstNode::parse_group(&mut receiver, 64);
    assert_eq!(read.end, GroupEnd::Closed);
    assert_eq!(read.at, 1);
    let mut children = ChunkedReceiverWrapper::new(read.children);
    assert!(matches!(children.next(), Some(AstNode::IncrementData)));
    assert!(children.next().is_none());
    assert_eq!(receiver.next(), Some(Token::DecrementData));
    assert_eq!(receiver.next(), None);
}

#[test]
fn parse_group_tells_how_it_ended() {
    let mut exhausted = ChunkedReceiverWrapper::new(Token::parse(b"+[-]", 64));
    let read = AstNode::parse_group(&mut exhausted, 64);
    assert_eq!(read.end, GroupEnd::Exhausted);
    assert_eq!(read.at, 4);
    let mut unclosed = ChunkedReceiverWrapper::new(Token::parse(b"+[-", 64));
    let read = AstNode::parse_group(&mut unclosed, 64);
    assert_eq!(read.end, GroupEnd::Unclosed);
    assert_eq!(read.at, 1);
}

#[test]
fn parser_emits_groups_with_their_own_channel() {
    let mut receiver = ChunkedReceiverWrapper::new(Token::parse(b">[<]", 2));
    let channel = AstNode::parse(&mut receiver, 2).unwrap();
    let mut nodes = ChunkedReceiverWrapper::new(channel);
    assert!(matches!(nodes.next(), Some(AstNode::IncrementPointer)));
    match nodes.next() {
        Some(AstNode::Group(children)) => {
            let mut children = ChunkedReceiverWrapper::new(children);
            assert!(matches!(children.next(), Some(AstNode::DecrementPointer)));
            assert!(children.next().is_none());
        }
        other => panic!("expected a group, found {:?}", other),
    }
    assert!(nodes.next().is_none());
}

#[test]
fn is_nonzero_is_false_for_a_change_by_zero_only() {
    assert!(!DeduplicatedAstNode::ModifyPointer(0).is_nonzero());
    assert!(!DeduplicatedAstNode::ModifyData(0).is_nonzero());
    assert!(DeduplicatedAstNode::ModifyPointer(1).is_nonzero());
    assert!(DeduplicatedAstNode::ModifyData(-1).is_nonzero());
    assert!(DeduplicatedAstNode::Output.is_nonzero());
    assert!(DeduplicatedAstNode::Input.is_nonzero());
    assert!(DeduplicatedAstNode::Group(Channel::new()).is_nonzero());
}

#[test]
fn pending_run_joins_steps_of_its_kind() {
    let mut sender = ChunkedSender::new(4);
    let run = Pending::Pointer(2).join(true, 1, &mut sender);
    assert_eq!(run, Pending::Pointer(3));
    let run = run.join(false, -1, &mut sender);
    assert_eq!(run, Pending::Data(-1));
    let run = Pending::Empty.join(false, 1, &mut sender);
    assert_eq!(run, Pending::Data(1));
    let sent = CollectedAstNode::parse(DeduplicatedAstNode::parse(Channel::new(), 4));
    assert!(sent.is_empty());
    assert_eq!(CollectedAstNode::parse(sender.flush()), VecDeque::from(vec![pointer(3)]));
}

#[test]
fn pending_run_at_the_limit_ends_and_starts_anew() {
    let mut sender = ChunkedSender::new(4);
    let run = Pending::Data(isize::MAX).join(false, 1, &mut sender);
    assert_eq!(run, Pending::Data(1));
    let run = Pending::Pointer(isize::MIN).join(true, -1, &mut sender);
    assert_eq!(run, Pending::Pointer(-1));
    assert_eq!(
        CollectedAstNode::parse(sender.flush()),
        VecDeque::from(vec![data(isize::MAX), pointer(isize::MIN)])
    );
}

#[test]
fn pending_run_flushes_nothing_for_zero() {
    let mut sender = ChunkedSender::new(4);
    Pending::Empty.flush(&mut sender);
    Pending::Pointer(0).flush(&mut sender);
    Pending::Data(0).flush(&mut sender);
    Pending::Data(-7).flush(&mut sender);
    assert_eq!(CollectedAstNode::parse(sender.flush()), VecDeque::from(vec![data(-7)]));
}
