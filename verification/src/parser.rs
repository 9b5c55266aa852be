//! The parser: it routes the fragments of each line to the tree builder.

use vstd::prelude::*;
use crate::builder::TreeBuilder;
use crate::chars::lemma_trimmed_end;
use crate::chars::strings_view;
use crate::chars::CharClass;
use crate::error::ParseError;
use crate::error::ParseErrorKind;
use crate::error::ParseErrorView;
use crate::laws::lemma_accepted_tree_valid;
use crate::lexer::fragment_at;
use crate::lexer::is_fragment;
use crate::lexer::lemma_fragment_at;
use crate::lexer::line_end;
use crate::lexer::token_of;
use crate::lexer::FragmentKind;
use crate::lexer::LineBuffer;
use crate::lexer::Scan;
use crate::lexer::ScanView;
use crate::lexer::Token;
use crate::tree::TreeView;
use crate::tree::XMLTree;

verus! {

/// Where and why a line was rejected: the reason, the fragment
/// `[start, end)` of the line at which it arose, and the tree as the
/// fragments before that one left it.
pub struct Failure {
    pub kind: ParseErrorKind,
    pub start: int,
    pub end: int,
    pub tree: TreeView,
}

/// The effect of a token on `tree`.
pub open spec fn apply_token(tree: TreeView, token: Token) -> Result<TreeView, ParseErrorKind> {
    match token {
        Token::Open { name, attrs } => tree.open_tag(name, attrs),
        Token::Close { name } => tree.close_tag(name),
        Token::Text { run } => tree.text(run),
        Token::Malformed { kind } => Err(kind),
    }
}

/// The effect on `tree` of the range `[start, end)`, taken as a fragment of
/// kind `kind` of the line `s` that ends at `limit`: that of the token it
/// stands for. A range that is no such fragment, as a tag without its `>`,
/// is refused as malformed.
pub open spec fn apply_fragment(
    tree: TreeView,
    s: Seq<char>,
    kind: FragmentKind,
    start: int,
    end: int,
    limit: int,
) -> Result<TreeView, ParseErrorKind> {
    apply_token(tree, token_of(s, kind, start, end, limit))
}

/// The effect on `tree` of a list of tokens, taken one after the other. The
/// first token that is malformed or that the tree does not accept ends the
/// run.
pub open spec fn feed(tree: TreeView, tokens: Seq<Token>) -> Result<TreeView, ParseErrorKind>
    decreases tokens.len(),
{
    if tokens.len() == 0 {
        Ok(tree)
    } else {
        match apply_token(tree, tokens[0]) {
            Err(kind) => Err(kind),
            Ok(next) => feed(next, tokens.drop_first()),
        }
    }
}

/// The effect on `tree` of the fragments of `s[pos..end]`, taken one after
/// the other. The first fragment that is malformed or that the tree does not
/// accept ends the run.
pub open spec fn run_line(tree: TreeView, s: Seq<char>, pos: int, end: int) -> Result<
    TreeView,
    Failure,
>
    decreases end - pos,
{
    match fragment_at(s, pos, end) {
        ScanView::Done => Ok(tree),
        ScanView::Unterminated { start } => Err(
            Failure { kind: ParseErrorKind::MalformedFragment, start, end, tree },
        ),
        ScanView::Found { kind, start, end: stop } => {
            proof {
                lemma_fragment_at(s, pos, end);
            }
            match apply_fragment(tree, s, kind, start, stop, end) {
                Err(kind) => Err(Failure { kind, start, end: stop, tree }),
                Ok(next) => run_line(next, s, stop, end),
            }
        },
    }
}

/// The effect on `tree` of the lines from line `i` on. The first line that
/// is rejected ends the run; the error names it, counting from 1.
pub open spec fn run_lines(tree: TreeView, lines: Seq<Seq<char>>, i: int) -> Result<
    TreeView,
    ParseErrorView,
>
    decreases lines.len() - i,
{
    if i < 0 || i >= lines.len() {
        Ok(tree)
    } else {
        match run_line(tree, lines[i], 0, line_end(lines[i])) {
            Err(failure) => Err(
                ParseErrorView {
                    kind: failure.kind,
                    line: (i + 1) as nat,
                    fragment: lines[i].subrange(failure.start, failure.end),
                },
            ),
            Ok(next) => run_lines(next, lines, i + 1),
        }
    }
}

/// The tree that a document stands for, or why it is rejected.
pub open spec fn parse_spec(lines: Seq<Seq<char>>) -> Result<TreeView, ParseErrorView> {
    run_lines(TreeView::empty(), lines, 0)
}

/// Handles the open tag `[start, end)` of `line`: reads its name and its
/// attributes and opens the element.
///
/// The range must be an open tag of the line: it starts with `<` and ends
/// with the first `>` after it. Any other range, such as a tag that the end
/// of the line cuts off before its `>`, is refused as a malformed fragment.
/// Whatever is refused leaves the tree as it was.
pub fn handle_entry_tag(
    line: &LineBuffer,
    start: usize,
    end: usize,
    tree: &mut TreeBuilder,
) -> (done: Result<(), ParseErrorKind>)
    ensures
        match apply_fragment(
            old(tree)@,
            line@,
            FragmentKind::OpenTag,
            start as int,
            end as int,
            line_end(line@),
        ) {
            Ok(next) => done is Ok && final(tree)@ == next,
            Err(kind) => done == Err::<(), ParseErrorKind>(kind) && final(tree)@ == old(tree)@,
        },
        !is_fragment(line@, FragmentKind::OpenTag, start as int, end as int, line_end(line@))
            ==> done == Err::<(), ParseErrorKind>(ParseErrorKind::MalformedFragment),
{
    if !line.is_fragment(FragmentKind::OpenTag, start, end) {
        return Err(ParseErrorKind::MalformedFragment);
    }
    proof {
        lemma_fragment_at(line@, start as int, line_end(line@));
        lemma_trimmed_end(line@, line@.len() as int);
    }
    let name_end = line.find(start + 1, end - 1, CharClass::NotName);
    if !line.is_name(start + 1, name_end) {
        return Err(ParseErrorKind::InvalidTagName);
    }
    match line.attributes_in(name_end, end - 1) {
        None => Err(ParseErrorKind::MalformedAttribute),
        Some(attrs) => tree.open_element(line.slice(start + 1, name_end), attrs),
    }
}

/// Handles the close tag `[start, end)` of `line`: closes the innermost open
/// element if the tag names it.
///
/// The range must be a close tag of the line: it starts with `</` and ends
/// with the first `>` after it. Any other range, such as a tag that the end
/// of the line cuts off before its `>`, is refused as a malformed fragment.
/// Whatever is refused leaves the tree as it was.
pub fn handle_exit_tag(
    line: &LineBuffer,
    start: usize,
    end: usize,
    tree: &mut TreeBuilder,
) -> (done: Result<(), ParseErrorKind>)
    ensures
        match apply_fragment(
            old(tree)@,
            line@,
            FragmentKind::CloseTag,
            start as int,
            end as int,
            line_end(line@),
        ) {
            Ok(next) => done is Ok && final(tree)@ == next,
            Err(kind) => done == Err::<(), ParseErrorKind>(kind) && final(tree)@ == old(tree)@,
        },
        !is_fragment(line@, FragmentKind::CloseTag, start as int, end as int, line_end(line@))
            ==> done == Err::<(), ParseErrorKind>(ParseErrorKind::MalformedFragment),
{
    if !line.is_fragment(FragmentKind::CloseTag, start, end) {
        return Err(ParseErrorKind::MalformedFragment);
    }
    proof {
        lemma_fragment_at(line@, start as int, line_end(line@));
        lemma_trimmed_end(line@, line@.len() as int);
    }
    let name = line.slice(start + 2, end - 1);
    tree.close_element(&name)
}

/// Handles the text run `[start, end)` of `line`: adds it to the innermost
/// open element.
///
/// The range must be a text run of the line: it starts with a character
/// that is neither white space nor `<`, and ends before the next `<` or
/// with the line. Any other range is refused as a malformed fragment.
/// Whatever is refused leaves the tree as it was.
pub fn handle_characters(
    line: &LineBuffer,
    start: usize,
    end: usize,
    tree: &mut TreeBuilder,
) -> (done: Result<(), ParseErrorKind>)
    ensures
        match apply_fragment(
            old(tree)@,
            line@,
            FragmentKind::Text,
            start as int,
            end as int,
            line_end(line@),
        ) {
            Ok(next) => done is Ok && final(tree)@ == next,
            Err(kind) => done == Err::<(), ParseErrorKind>(kind) && final(tree)@ == old(tree)@,
        },
        !is_fragment(line@, FragmentKind::Text, start as int, end as int, line_end(line@))
            ==> done == Err::<(), ParseErrorKind>(ParseErrorKind::MalformedFragment),
{
    if !line.is_fragment(FragmentKind::Text, start, end) {
        return Err(ParseErrorKind::MalformedFragment);
    }
    proof {
        lemma_fragment_at(line@, start as int, line_end(line@));
        lemma_trimmed_end(line@, line@.len() as int);
    }
    tree.append_text(line.slice(start, end))
}

/// Processes one line of a document: trims it, then hands each of its
/// fragments to the handler of its kind, until the line is used up or a
/// fragment is rejected. `line_number` is the number that an error reports.
///
/// A fragment that is rejected leaves the tree as the fragments before it
/// made it, those of the same line too. A document of which a line is
/// rejected has no tree: the builder is to be dropped, not finished.
pub fn processing_router(line: &str, line_number: usize, tree: &mut TreeBuilder) -> (done: Result<
    (),
    ParseError,
>)
    ensures
        match (run_line(old(tree)@, line@, 0, line_end(line@)), done) {
            (Ok(next), Ok(_)) => final(tree)@ == next,
            (Err(failure), Err(error)) => {
                &&& error@ == (ParseErrorView {
                    kind: failure.kind,
                    line: line_number as nat,
                    fragment: line@.subrange(failure.start, failure.end),
                })
                &&& final(tree)@ == failure.tree
            },
            _ => false,
        },
{
    let buffer = LineBuffer::new(line);
    let stop = buffer.end();
    let ghost initial = tree@;
    let mut pos: usize = 0;
    loop
        invariant
            initial == old(tree)@,
            buffer@ == line@,
            stop == line_end(line@),
            pos <= stop <= line@.len(),
            run_line(initial, line@, 0, stop as int) == run_line(
                tree@,
                line@,
                pos as int,
                stop as int,
            ),
        decreases stop - pos,
    {
        proof {
            lemma_fragment_at(line@, pos as int, stop as int);
        }
        match buffer.next_fragment(pos) {
            Scan::Done => {
                return Ok(());
            },
            Scan::Unterminated { start } => {
                return Err(
                    ParseError {
                        kind: ParseErrorKind::MalformedFragment,
                        line: line_number,
                        fragment: buffer.slice(start, stop),
                    },
                );
            },
            Scan::Found { kind, start, end } => {
                let handled = match kind {
                    FragmentKind::OpenTag => handle_entry_tag(&buffer, start, end, tree),
                    FragmentKind::CloseTag => handle_exit_tag(&buffer, start, end, tree),
                    FragmentKind::Text => handle_characters(&buffer, start, end, tree),
                };
                match handled {
                    Err(kind) => {
                        return Err(
                            ParseError {
                                kind,
                                line: line_number,
                                fragment: buffer.slice(start, end),
                            },
                        );
                    },
                    Ok(_) => {
                        pos = end;
                    },
                }
            },
        }
    }
}

/// Builds the tree of a document, given as its lines.
///
/// The result is the tree that `parse_spec` describes. A document that it
/// rejects yields no tree, but the error of the first fragment that is
/// malformed or out of place: a close tag that does not name the innermost
/// open element is such a fragment. A document may end with elements still
/// open; they stay in the tree, and `open_depth` tells how many there are.
///
/// In the tree of an accepted document every tag and every attribute key is
/// a name.
pub fn parse_xml_to_tree(lines: &Vec<String>) -> (parsed: Result<XMLTree, ParseError>)
    ensures
        match (parse_spec(strings_view(lines@)), parsed) {
            (Ok(tree), Ok(built)) => built@ == tree && tree.wf() && tree.names_valid(),
            (Err(failure), Err(error)) => error@ == failure,
            _ => false,
        },
{
    proof {
        if parse_spec(strings_view(lines@)) is Ok {
            lemma_accepted_tree_valid(strings_view(lines@));
        }
    }
    let mut tree = TreeBuilder::new();
    let mut i: usize = 0;
    while i < lines.len()
        invariant
            i <= lines.len(),
            parse_spec(strings_view(lines@)) == run_lines(tree@, strings_view(lines@), i as int),
        decreases lines.len() - i,
    {
        match processing_router(lines[i].as_str(), i + 1, &mut tree) {
            Err(error) => {
                return Err(error);
            },
            Ok(_) => {},
        }
        i = i + 1;
    }
    Ok(tree.finish())
}

} // verus!
