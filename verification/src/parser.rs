//! The parsing pipeline: a character-level lexer with quoting and raw-text
//! modes, and the tree builder that consumes the token sequence while
//! maintaining an open-element stack.
use vstd::prelude::*;
use vstd::hash_map::StringHashMap;

use crate::dom::DOM;
use crate::dom::DomElem;
use crate::dom::DomView;
use crate::dom::ElementData;
use crate::dom::ElementView;
use crate::dom::Node;
use crate::dom::NodePayload;
use crate::dom::NodeType;
use crate::dom::TAG;
use crate::dom::dom_wf;
use crate::dom::lemma_new_node_wf;
use crate::dom::lemma_set_attr_wf;
use crate::dom::dom_string;
use crate::dom::lemma_partial_close;
use crate::dom::lemma_partial_open;
use crate::dom::lemma_partial_skeleton;
use crate::dom::lemma_partial_text;
use crate::dom::node_tag;
use crate::dom::open_tag_seq;
use crate::dom::close_tag_seq;
use crate::dom::partial_string;
use crate::dom::payload_skeleton_eq;
use crate::dom::spec_new_node;
use crate::dom::spec_set_attr;
use crate::dom::spine_ok;

verus! {

/// One lexical unit of the markup language.  Whitespace outside quotes is a
/// separator and never becomes a token of its own.
#[derive(Debug, Clone, PartialEq, Eq)]
pub enum Token {
    OpenAngle,
    CloseAngle,
    ClosingMarker,
    Equals,
    SingleQuote,
    DoubleQuote,
    Word(String),
    QuotedText(String),
}

/// Mathematical model of a token.
pub ghost enum TokenView {
    OpenAngle,
    CloseAngle,
    ClosingMarker,
    Equals,
    SingleQuote,
    DoubleQuote,
    Word(Seq<char>),
    QuotedText(Seq<char>),
}

impl View for Token {
    type V = TokenView;

    open spec fn view(&self) -> TokenView {
        match self {
            Token::OpenAngle => TokenView::OpenAngle,
            Token::CloseAngle => TokenView::CloseAngle,
            Token::ClosingMarker => TokenView::ClosingMarker,
            Token::Equals => TokenView::Equals,
            Token::SingleQuote => TokenView::SingleQuote,
            Token::DoubleQuote => TokenView::DoubleQuote,
            Token::Word(s) => TokenView::Word(s@),
            Token::QuotedText(s) => TokenView::QuotedText(s@),
        }
    }
}

pub open spec fn toks_view(ts: Seq<Token>) -> Seq<TokenView> {
    Seq::new(ts.len(), |i: int| ts[i]@)
}

pub broadcast proof fn lemma_toks_view_push(ts: Seq<Token>, t: Token)
    ensures
        #[trigger] toks_view(ts.push(t)) == toks_view(ts).push(t@),
{
    assert(toks_view(ts.push(t)) =~= toks_view(ts).push(t@));
}

/// Everything that can go wrong while tokenizing or building.
#[derive(Clone, Copy, Debug, PartialEq, Eq, Structural)]
pub enum ParseError {
    /// The input ended while inside a quoted attribute value.
    UnterminatedQuote,
    /// A tag name outside the supported closed set.
    UnknownTag,
    /// A second top-level element while a root already exists.
    MultipleRootNodes,
    /// A closing tag name that does not match the currently open element.
    MismatchedCloseTag,
    /// The input was exhausted with open elements remaining.
    UnclosedTag,
}

/// The lexer's mode.  `AfterOpen` is the one-character lookahead state
/// right after `<`: a following `/` turns the pair into one
/// `ClosingMarker` token, anything else makes the `<` a plain `OpenAngle`.
#[derive(Clone, Copy, Debug, PartialEq, Eq, Structural)]
pub enum LexMode {
    Normal,
    AfterOpen,
    SingleQ,
    DoubleQ,
    BetweenTags,
}

/// The lexer's full state: mode, characters of the pending token, and the
/// tokens already emitted.
#[verifier::ext_equal]
pub ghost struct LexState {
    pub mode: LexMode,
    pub pending: Seq<char>,
    pub out: Seq<TokenView>,
}

pub open spec fn lex_init() -> LexState {
    LexState { mode: LexMode::Normal, pending: Seq::empty(), out: Seq::empty() }
}

/// Emits the pending word, if there is one.
pub open spec fn flush_word(pending: Seq<char>, out: Seq<TokenView>) -> Seq<TokenView> {
    if pending.len() > 0 {
        out.push(TokenView::Word(pending))
    } else {
        out
    }
}

/// One character in `Normal` mode: whitespace separates, the six delimiter
/// characters flush the pending word and emit or switch mode, anything else
/// extends the pending word.
pub open spec fn lex_normal(pending: Seq<char>, out: Seq<TokenView>, c: char) -> LexState {
    if c == ' ' || c == '\n' {
        LexState { mode: LexMode::Normal, pending: Seq::empty(), out: flush_word(pending, out) }
    } else if c == '<' {
        LexState { mode: LexMode::AfterOpen, pending: Seq::empty(), out: flush_word(pending, out) }
    } else if c == '>' {
        LexState {
            mode: LexMode::BetweenTags,
            pending: Seq::empty(),
            out: flush_word(pending, out).push(TokenView::CloseAngle),
        }
    } else if c == '=' {
        LexState {
            mode: LexMode::Normal,
            pending: Seq::empty(),
            out: flush_word(pending, out).push(TokenView::Equals),
        }
    } else if c == '\'' {
        LexState {
            mode: LexMode::SingleQ,
            pending: Seq::empty(),
            out: flush_word(pending, out).push(TokenView::SingleQuote),
        }
    } else if c == '"' {
        LexState {
            mode: LexMode::DoubleQ,
            pending: Seq::empty(),
            out: flush_word(pending, out).push(TokenView::DoubleQuote),
        }
    } else {
        LexState { mode: LexMode::Normal, pending: pending.push(c), out }
    }
}

/// One character of input.  In the quote modes every character, spaces and
/// newlines included, belongs to the quoted run until the matching quote;
/// between tags every character belongs to the raw text run until `<`.
pub open spec fn lex_step(st: LexState, c: char) -> LexState {
    match st.mode {
        LexMode::Normal => lex_normal(st.pending, st.out, c),
        LexMode::AfterOpen => if c == '/' {
            LexState {
                mode: LexMode::Normal,
                pending: Seq::empty(),
                out: st.out.push(TokenView::ClosingMarker),
            }
        } else {
            lex_normal(Seq::empty(), st.out.push(TokenView::OpenAngle), c)
        },
        LexMode::SingleQ => if c == '\'' {
            LexState {
                mode: LexMode::Normal,
                pending: Seq::empty(),
                out: st.out.push(TokenView::QuotedText(st.pending)).push(TokenView::SingleQuote),
            }
        } else {
            LexState { mode: LexMode::SingleQ, pending: st.pending.push(c), out: st.out }
        },
        LexMode::DoubleQ => if c == '"' {
            LexState {
                mode: LexMode::Normal,
                pending: Seq::empty(),
                out: st.out.push(TokenView::QuotedText(st.pending)).push(TokenView::DoubleQuote),
            }
        } else {
            LexState { mode: LexMode::DoubleQ, pending: st.pending.push(c), out: st.out }
        },
        LexMode::BetweenTags => if c == '<' {
            LexState {
                mode: LexMode::AfterOpen,
                pending: Seq::empty(),
                out: flush_word(st.pending, st.out),
            }
        } else {
            LexState { mode: LexMode::BetweenTags, pending: st.pending.push(c), out: st.out }
        },
    }
}

/// The lexer state after the first `n` characters of `s`.
pub open spec fn lex_upto(s: Seq<char>, n: int) -> LexState
    decreases n,
{
    if n <= 0 {
        lex_init()
    } else {
        lex_step(lex_upto(s, n - 1), s[n - 1])
    }
}

/// End of input: an open quote is an error, a dangling `<` becomes
/// `OpenAngle`, and any pending word is flushed.
pub open spec fn lex_finish(st: LexState) -> Result<Seq<TokenView>, ParseError> {
    match st.mode {
        LexMode::SingleQ => Err(ParseError::UnterminatedQuote),
        LexMode::DoubleQ => Err(ParseError::UnterminatedQuote),
        LexMode::AfterOpen => Ok(st.out.push(TokenView::OpenAngle)),
        LexMode::Normal => Ok(flush_word(st.pending, st.out)),
        LexMode::BetweenTags => Ok(flush_word(st.pending, st.out)),
    }
}

/// What `tokenize` returns, as a function of the input characters.
pub open spec fn spec_tokenize(s: Seq<char>) -> Result<Seq<TokenView>, ParseError> {
    lex_finish(lex_upto(s, s.len() as int))
}

/// Scans the input and produces the token sequence, or reports a quoted
/// run that never closes.
pub fn tokenize(body: &str) -> (r: Result<Vec<Token>, ParseError>)
    ensures
        match r {
            Ok(v) => spec_tokenize(body@) == Ok::<Seq<TokenView>, ParseError>(toks_view(v@)),
            Err(e) => spec_tokenize(body@) == Err::<Seq<TokenView>, ParseError>(e),
        },
{
    broadcast use lemma_toks_view_push;

    let n = body.unicode_len();
    let mut toks: Vec<Token> = Vec::new();
    let mut mode = LexMode::Normal;
    let mut start: usize = 0;
    let mut i: usize = 0;
    while i < n
        invariant
            i <= n,
            start <= i,
            n == body@.len(),
            lex_upto(body@, i as int) == (LexState {
                mode,
                pending: body@.subrange(start as int, i as int),
                out: toks_view(toks@),
            }),
        decreases n - i,
    {
        let ghost prev = lex_upto(body@, i as int);
        let c = body.get_char(i);
        proof {
            assert(lex_upto(body@, i + 1) == lex_step(prev, body@[i as int]));
            assert(body@.subrange(start as int, i + 1) =~= body@.subrange(
                start as int,
                i as int,
            ).push(body@[i as int]));
            assert(body@.subrange(i + 1, i + 1) =~= Seq::<char>::empty());
        }
        match mode {
            LexMode::Normal | LexMode::AfterOpen => {
                if matches!(mode, LexMode::AfterOpen) {
                    if c == '/' {
                        toks.push(Token::ClosingMarker);
                        mode = LexMode::Normal;
                        start = i + 1;
                        i += 1;
                        continue ;
                    }
                    toks.push(Token::OpenAngle);
                    mode = LexMode::Normal;
                }
                if c == ' ' || c == '\n' {
                    if start < i {
                        toks.push(Token::Word(body.substring_char(start, i).to_owned()));
                    }
                    start = i + 1;
                } else if c == '<' {
                    if start < i {
                        toks.push(Token::Word(body.substring_char(start, i).to_owned()));
                    }
                    mode = LexMode::AfterOpen;
                    start = i + 1;
                } else if c == '>' {
                    if start < i {
                        toks.push(Token::Word(body.substring_char(start, i).to_owned()));
                    }
                    toks.push(Token::CloseAngle);
                    mode = LexMode::BetweenTags;
                    start = i + 1;
                } else if c == '=' {
                    if start < i {
                        toks.push(Token::Word(body.substring_char(start, i).to_owned()));
                    }
                    toks.push(Token::Equals);
                    start = i + 1;
                } else if c == '\'' {
                    if start < i {
                        toks.push(Token::Word(body.substring_char(start, i).to_owned()));
                    }
                    toks.push(Token::SingleQuote);
                    mode = LexMode::SingleQ;
                    start = i + 1;
                } else if c == '"' {
                    if start < i {
                        toks.push(Token::Word(body.substring_char(start, i).to_owned()));
                    }
                    toks.push(Token::DoubleQuote);
                    mode = LexMode::DoubleQ;
                    start = i + 1;
                }
            },
            LexMode::SingleQ => {
                if c == '\'' {
                    toks.push(Token::QuotedText(body.substring_char(start, i).to_owned()));
                    toks.push(Token::SingleQuote);
                    mode = LexMode::Normal;
                    start = i + 1;
                }
            },
            LexMode::DoubleQ => {
                if c == '"' {
                    toks.push(Token::QuotedText(body.substring_char(start, i).to_owned()));
                    toks.push(Token::DoubleQuote);
                    mode = LexMode::Normal;
                    start = i + 1;
                }
            },
            LexMode::BetweenTags => {
                if c == '<' {
                    if start < i {
                        toks.push(Token::Word(body.substring_char(start, i).to_owned()));
                    }
                    mode = LexMode::AfterOpen;
                    start = i + 1;
                }
            },
        }
        i += 1;
    }
    match mode {
        LexMode::SingleQ | LexMode::DoubleQ => Err(ParseError::UnterminatedQuote),
        LexMode::AfterOpen => {
            toks.push(Token::OpenAngle);
            Ok(toks)
        },
        LexMode::Normal | LexMode::BetweenTags => {
            if start < n {
                toks.push(Token::Word(body.substring_char(start, n).to_owned()));
            }
            Ok(toks)
        },
    }
}

/// The tag named by a word, if it belongs to the supported closed set.
pub open spec fn spec_tag_of(w: Seq<char>) -> Option<TAG> {
    if w == "html"@ {
        Some(TAG::HTML)
    } else if w == "head"@ {
        Some(TAG::HEAD)
    } else if w == "body"@ {
        Some(TAG::BODY)
    } else if w == "p"@ {
        Some(TAG::P)
    } else if w == "div"@ {
        Some(TAG::DIV)
    } else {
        None
    }
}

/// The lower-case name of a tag, as it is written in the markup.
pub open spec fn tag_name_seq(t: TAG) -> Seq<char> {
    match t {
        TAG::HTML => "html"@,
        TAG::HEAD => "head"@,
        TAG::BODY => "body"@,
        TAG::P => "p"@,
        TAG::DIV => "div"@,
    }
}

fn tag_name_str(t: TAG) -> (r: &'static str)
    ensures
        r@ == tag_name_seq(t),
{
    match t {
        TAG::HTML => "html",
        TAG::HEAD => "head",
        TAG::BODY => "body",
        TAG::P => "p",
        TAG::DIV => "div",
    }
}

fn tag_of_word(w: &String) -> (r: Option<TAG>)
    ensures
        r == spec_tag_of(w@),
{
    if *w == String::from_str("html") {
        Some(TAG::HTML)
    } else if *w == String::from_str("head") {
        Some(TAG::HEAD)
    } else if *w == String::from_str("body") {
        Some(TAG::BODY)
    } else if *w == String::from_str("p") {
        Some(TAG::P)
    } else if *w == String::from_str("div") {
        Some(TAG::DIV)
    } else {
        None
    }
}

/// Where the builder stands inside the token stream: between tags, right
/// after `<`, inside a closing-tag group, or at some point of an attribute
/// group of the currently open tag.
pub enum BuildPhase {
    /// Expecting content: text, a new `<`, or a closing marker.
    Content,
    /// Right after `<`: the next word must be a known tag name.
    TagExpect,
    /// Right after `</`: the next word must name the open element.
    CloseTagName,
    /// The closing tag name matched; only `>` may follow.
    CloseTagEnd,
    /// Inside an open tag, no attribute group pending.
    InTag,
    /// Saw an attribute name.
    AttrName(String),
    /// Saw `name =`.
    AttrEq(String),
    /// Saw `name =` and an opening quote.
    AttrVal(String),
    /// Saw the quoted value; the closing quote finishes the group.
    AttrDone(String, String),
}

/// Mathematical model of a builder phase.
pub ghost enum PhaseView {
    Content,
    TagExpect,
    CloseTagName,
    CloseTagEnd,
    InTag,
    AttrName(Seq<char>),
    AttrEq(Seq<char>),
    AttrVal(Seq<char>),
    AttrDone(Seq<char>, Seq<char>),
}

impl View for BuildPhase {
    type V = PhaseView;

    open spec fn view(&self) -> PhaseView {
        match self {
            BuildPhase::Content => PhaseView::Content,
            BuildPhase::TagExpect => PhaseView::TagExpect,
            BuildPhase::CloseTagName => PhaseView::CloseTagName,
            BuildPhase::CloseTagEnd => PhaseView::CloseTagEnd,
            BuildPhase::InTag => PhaseView::InTag,
            BuildPhase::AttrName(w) => PhaseView::AttrName(w@),
            BuildPhase::AttrEq(w) => PhaseView::AttrEq(w@),
            BuildPhase::AttrVal(w) => PhaseView::AttrVal(w@),
            BuildPhase::AttrDone(w, v) => PhaseView::AttrDone(w@, v@),
        }
    }
}

/// The builder's full state: the document built so far, the stack of open
/// element handles, and the phase.
#[verifier::ext_equal]
pub ghost struct BuildState {
    pub dom: DomView,
    pub stack: Seq<usize>,
    pub phase: PhaseView,
}

pub open spec fn b_init() -> BuildState {
    BuildState {
        dom: DomView { nodes: Seq::empty(), root: None, ids: Map::empty(), classes: Map::empty() },
        stack: Seq::empty(),
        phase: PhaseView::Content,
    }
}

/// A text run becomes a text child of the innermost open element; text
/// outside any element is dropped.
pub open spec fn bs_text(st: BuildState, w: Seq<char>) -> BuildState {
    if st.stack.len() > 0 {
        BuildState {
            dom: spec_new_node(st.dom, Some(st.stack.last()), NodePayload::Text(w)),
            ..st
        }
    } else {
        st
    }
}

/// An attribute group assigns to the innermost open element.
pub open spec fn bs_attr(st: BuildState, key: Seq<char>, value: Seq<char>) -> DomView {
    if st.stack.len() > 0 {
        spec_set_attr(st.dom, st.stack.last(), key, value)
    } else {
        st.dom
    }
}

/// Opening a tag: a second top-level element is refused; otherwise a fresh
/// element node is created under the innermost open element (or becomes
/// the root) and pushed onto the stack.
pub open spec fn bs_open(st: BuildState, tag: TAG) -> Result<BuildState, ParseError> {
    if st.stack.len() == 0 && st.dom.root is Some {
        Err(ParseError::MultipleRootNodes)
    } else {
        let h = st.dom.nodes.len() as usize;
        let parent = if st.stack.len() > 0 {
            Some(st.stack.last())
        } else {
            None
        };
        let d1 = spec_new_node(
            st.dom,
            parent,
            NodePayload::Element(ElementView { tag, attrs: Map::empty() }),
        );
        let d2 = if st.stack.len() == 0 {
            DomView { root: Some(h), ..d1 }
        } else {
            d1
        };
        Ok(BuildState { dom: d2, stack: st.stack.push(h), phase: PhaseView::InTag })
    }
}

/// Whether the word names the innermost open element.
pub open spec fn top_tag_is(st: BuildState, w: Seq<char>) -> bool {
    &&& st.stack.len() > 0
    &&& st.stack.last() < st.dom.nodes.len()
    &&& match st.dom.nodes[st.stack.last() as int].payload {
        NodePayload::Element(e) => w == tag_name_seq(e.tag),
        NodePayload::Text(_) => false,
    }
}

/// One token of input for the tree builder.  Tokens inside an open tag
/// that do not advance an attribute group are skipped: a name with no
/// value is stored with the empty value (the documented relaxation), and
/// stray delimiters are ignored rather than invented into structure.
pub open spec fn b_step(st: BuildState, t: TokenView) -> Result<BuildState, ParseError> {
    match st.phase {
        PhaseView::Content => match t {
            TokenView::OpenAngle => Ok(BuildState { phase: PhaseView::TagExpect, ..st }),
            TokenView::ClosingMarker => Ok(BuildState { phase: PhaseView::CloseTagName, ..st }),
            TokenView::Word(w) => Ok(bs_text(st, w)),
            TokenView::QuotedText(w) => Ok(bs_text(st, w)),
            _ => Ok(st),
        },
        PhaseView::TagExpect => match t {
            TokenView::Word(w) => match spec_tag_of(w) {
                Some(tag) => bs_open(st, tag),
                None => Err(ParseError::UnknownTag),
            },
            _ => Err(ParseError::UnknownTag),
        },
        PhaseView::CloseTagName => match t {
            TokenView::Word(w) => if top_tag_is(st, w) {
                Ok(BuildState { phase: PhaseView::CloseTagEnd, ..st })
            } else {
                Err(ParseError::MismatchedCloseTag)
            },
            _ => Err(ParseError::MismatchedCloseTag),
        },
        PhaseView::CloseTagEnd => match t {
            TokenView::CloseAngle => Ok(
                BuildState { stack: st.stack.drop_last(), phase: PhaseView::Content, ..st },
            ),
            _ => Err(ParseError::MismatchedCloseTag),
        },
        PhaseView::InTag => match t {
            TokenView::Word(w) => Ok(BuildState { phase: PhaseView::AttrName(w), ..st }),
            TokenView::CloseAngle => Ok(BuildState { phase: PhaseView::Content, ..st }),
            _ => Ok(st),
        },
        PhaseView::AttrName(w) => match t {
            TokenView::Equals => Ok(BuildState { phase: PhaseView::AttrEq(w), ..st }),
            TokenView::Word(w2) => Ok(
                BuildState {
                    dom: bs_attr(st, w, Seq::empty()),
                    phase: PhaseView::AttrName(w2),
                    ..st
                },
            ),
            TokenView::CloseAngle => Ok(
                BuildState { dom: bs_attr(st, w, Seq::empty()), phase: PhaseView::Content, ..st },
            ),
            _ => Ok(
                BuildState { dom: bs_attr(st, w, Seq::empty()), phase: PhaseView::InTag, ..st },
            ),
        },
        PhaseView::AttrEq(w) => match t {
            TokenView::SingleQuote => Ok(BuildState { phase: PhaseView::AttrVal(w), ..st }),
            TokenView::DoubleQuote => Ok(BuildState { phase: PhaseView::AttrVal(w), ..st }),
            TokenView::Word(w2) => Ok(
                BuildState {
                    dom: bs_attr(st, w, Seq::empty()),
                    phase: PhaseView::AttrName(w2),
                    ..st
                },
            ),
            TokenView::CloseAngle => Ok(
                BuildState { dom: bs_attr(st, w, Seq::empty()), phase: PhaseView::Content, ..st },
            ),
            _ => Ok(
                BuildState { dom: bs_attr(st, w, Seq::empty()), phase: PhaseView::InTag, ..st },
            ),
        },
        PhaseView::AttrVal(w) => match t {
            TokenView::QuotedText(v) => Ok(BuildState { phase: PhaseView::AttrDone(w, v), ..st }),
            TokenView::Word(w2) => Ok(
                BuildState {
                    dom: bs_attr(st, w, Seq::empty()),
                    phase: PhaseView::AttrName(w2),
                    ..st
                },
            ),
            TokenView::CloseAngle => Ok(
                BuildState { dom: bs_attr(st, w, Seq::empty()), phase: PhaseView::Content, ..st },
            ),
            _ => Ok(
                BuildState { dom: bs_attr(st, w, Seq::empty()), phase: PhaseView::InTag, ..st },
            ),
        },
        PhaseView::AttrDone(w, v) => match t {
            TokenView::Word(w2) => Ok(
                BuildState { dom: bs_attr(st, w, v), phase: PhaseView::AttrName(w2), ..st },
            ),
            TokenView::CloseAngle => Ok(
                BuildState { dom: bs_attr(st, w, v), phase: PhaseView::Content, ..st },
            ),
            _ => Ok(BuildState { dom: bs_attr(st, w, v), phase: PhaseView::InTag, ..st }),
        },
    }
}

/// The builder state after the first `n` tokens; an error stops the run.
pub open spec fn b_run(toks: Seq<TokenView>, n: int) -> Result<BuildState, ParseError>
    decreases n,
{
    if n <= 0 {
        Ok(b_init())
    } else {
        match b_run(toks, n - 1) {
            Ok(st) => b_step(st, toks[n - 1]),
            Err(e) => Err(e),
        }
    }
}

/// End of the token stream: a half-read tag group is an error, open
/// elements are an error, otherwise the document is done.
pub open spec fn b_finish(st: BuildState) -> Result<DomView, ParseError> {
    match st.phase {
        PhaseView::TagExpect => Err(ParseError::UnknownTag),
        PhaseView::CloseTagName => Err(ParseError::MismatchedCloseTag),
        PhaseView::CloseTagEnd => Err(ParseError::MismatchedCloseTag),
        _ => if st.stack.len() > 0 {
            Err(ParseError::UnclosedTag)
        } else {
            Ok(st.dom)
        },
    }
}

/// What `build` returns, as a function of the token views.
pub open spec fn spec_build(toks: Seq<TokenView>) -> Result<DomView, ParseError> {
    match b_run(toks, toks.len() as int) {
        Ok(st) => b_finish(st),
        Err(e) => Err(e),
    }
}

/// Once the builder has failed, the rest of the tokens change nothing.
proof fn lemma_b_run_err(toks: Seq<TokenView>, n: int, m: int)
    requires
        0 <= n <= m,
        b_run(toks, n) is Err,
    ensures
        b_run(toks, m) == b_run(toks, n),
    decreases m - n,
{
    if m > n {
        lemma_b_run_err(toks, n, m - 1);
    }
}

/// The builder invariant: the document is well formed, the stack holds
/// handles of element nodes in the arena, and a matched closing tag always
/// has an element to pop.
pub open spec fn bs_inv(st: BuildState) -> bool {
    &&& dom_wf(st.dom)
    &&& forall|k: int| 0 <= k < st.stack.len() ==> (#[trigger] st.stack[k]) < st.dom.nodes.len()
    &&& forall|k: int|
        0 <= k < st.stack.len() ==> (#[trigger] st.dom.nodes[st.stack[k] as int].payload)
            is Element
    &&& st.phase is CloseTagEnd ==> st.stack.len() > 0
}

/// Consumes the token sequence and drives the construction of the node
/// store and the indices, maintaining an explicit stack of open elements.
pub fn build(tokens: &Vec<Token>) -> (r: Result<DOM, ParseError>)
    ensures
        match r {
            Ok(d) => spec_build(toks_view(tokens@)) == Ok::<DomView, ParseError>(d@) && dom_wf(
                d@,
            ),
            Err(e) => spec_build(toks_view(tokens@)) == Err::<DomView, ParseError>(e),
        },
{
    let ghost tv = toks_view(tokens@);
    let mut dom = DOM::new(DomElem::Empty);
    let mut stack: Vec<usize> = Vec::new();
    let mut phase = BuildPhase::Content;
    proof {
        assert(dom@ =~~= b_init().dom);
    }
    let n = tokens.len();
    let mut i: usize = 0;
    while i < n
        invariant
            i <= n,
            n == tokens@.len(),
            tv == toks_view(tokens@),
            b_run(tv, i as int) == Ok::<BuildState, ParseError>(
                BuildState { dom: dom@, stack: stack@, phase: phase@ },
            ),
            bs_inv(BuildState { dom: dom@, stack: stack@, phase: phase@ }),
        decreases n - i,
    {
        let ghost st0 = BuildState { dom: dom@, stack: stack@, phase: phase@ };
        let ghost stepped = b_step(st0, tv[i as int]);
        proof {
            assert(tv[i as int] == tokens@[i as int]@);
            assert(b_run(tv, i + 1) == stepped);
        }
        let t = &tokens[i];
        let ph = phase;
        match (ph, t) {
            (BuildPhase::Content, Token::OpenAngle) => {
                phase = BuildPhase::TagExpect;
            },
            (BuildPhase::Content, Token::ClosingMarker) => {
                phase = BuildPhase::CloseTagName;
            },
            (BuildPhase::Content, Token::Word(w)) | (BuildPhase::Content, Token::QuotedText(w)) => {
                phase = BuildPhase::Content;
                if stack.len() > 0 {
                    let top = stack[stack.len() - 1];
                    let _h = Node::new(&DomElem::Node(top), NodeType::Text(w.clone()), &mut dom);
                    proof {
                        lemma_new_node_wf(st0.dom, Some(top), NodePayload::Text(w@));
                        assert(stepped == Ok::<BuildState, ParseError>(
                            BuildState { dom: dom@, stack: stack@, phase: phase@ },
                        ));
                    }
                }
            },
            (BuildPhase::Content, _) => {
                phase = BuildPhase::Content;
            },
            (BuildPhase::TagExpect, Token::Word(w)) => {
                match tag_of_word(w) {
                    None => {
                        proof {
                            lemma_b_run_err(tv, i + 1, tv.len() as int);
                        }
                        return Err(ParseError::UnknownTag);
                    },
                    Some(tag) => {
                        let ghost nt = NodePayload::Element(
                            ElementView { tag, attrs: Map::empty() },
                        );
                        if stack.len() == 0 {
                            let root_taken = match dom.get_root() {
                                DomElem::Node(_) => true,
                                DomElem::Empty => false,
                            };
                            if root_taken {
                                proof {
                                    lemma_b_run_err(tv, i + 1, tv.len() as int);
                                }
                                return Err(ParseError::MultipleRootNodes);
                            }
                            let payload = NodeType::Element(
                                ElementData::new(tag, StringHashMap::new()),
                            );
                            proof {
                                assert(payload@ =~~= nt);
                            }
                            let h = Node::new(&DomElem::Empty, payload, &mut dom);
                            dom.set_root(DomElem::Node(h));
                            stack.push(h);
                            proof {
                                lemma_new_node_wf(st0.dom, None, nt);
                            }
                        } else {
                            let top = stack[stack.len() - 1];
                            let payload = NodeType::Element(
                                ElementData::new(tag, StringHashMap::new()),
                            );
                            proof {
                                assert(payload@ =~~= nt);
                            }
                            let h = Node::new(&DomElem::Node(top), payload, &mut dom);
                            stack.push(h);
                            proof {
                                lemma_new_node_wf(st0.dom, Some(top), nt);
                            }
                        }
                        phase = BuildPhase::InTag;
                        proof {
                            assert(stepped == Ok::<BuildState, ParseError>(
                                BuildState { dom: dom@, stack: stack@, phase: phase@ },
                            ));
                        }
                    },
                }
            },
            (BuildPhase::TagExpect, _) => {
                proof {
                    lemma_b_run_err(tv, i + 1, tv.len() as int);
                }
                return Err(ParseError::UnknownTag);
            },
            (BuildPhase::CloseTagName, Token::Word(w)) => {
                let mut matched = false;
                if stack.len() > 0 {
                    let top = stack[stack.len() - 1];
                    let node = dom.get_node(top);
                    match node.get_type() {
                        NodeType::Element(ed) => {
                            let tg = ed.get_tag();
                            if *w == String::from_str(tag_name_str(tg)) {
                                matched = true;
                            }
                        },
                        NodeType::Text(_) => {},
                    }
                }
                if matched {
                    phase = BuildPhase::CloseTagEnd;
                    proof {
                        assert(top_tag_is(st0, w@));
                    }
                } else {
                    proof {
                        assert(!top_tag_is(st0, w@));
                        lemma_b_run_err(tv, i + 1, tv.len() as int);
                    }
                    return Err(ParseError::MismatchedCloseTag);
                }
            },
            (BuildPhase::CloseTagName, _) => {
                proof {
                    lemma_b_run_err(tv, i + 1, tv.len() as int);
                }
                return Err(ParseError::MismatchedCloseTag);
            },
            (BuildPhase::CloseTagEnd, Token::CloseAngle) => {
                stack.pop();
                phase = BuildPhase::Content;
                proof {
                    assert(stack@ =~= st0.stack.drop_last());
                }
            },
            (BuildPhase::CloseTagEnd, _) => {
                proof {
                    lemma_b_run_err(tv, i + 1, tv.len() as int);
                }
                return Err(ParseError::MismatchedCloseTag);
            },
            (BuildPhase::InTag, Token::Word(w)) => {
                phase = BuildPhase::AttrName(w.clone());
            },
            (BuildPhase::InTag, Token::CloseAngle) => {
                phase = BuildPhase::Content;
            },
            (BuildPhase::InTag, _) => {
                phase = BuildPhase::InTag;
            },
            (BuildPhase::AttrName(w), Token::Equals) => {
                phase = BuildPhase::AttrEq(w);
            },
            (BuildPhase::AttrName(w), Token::Word(w2)) => {
                assign_attr(&mut dom, &stack, w, String::new());
                phase = BuildPhase::AttrName(w2.clone());
                proof {
                    lemma_assign_inv(st0, w@, Seq::empty());
                }
            },
            (BuildPhase::AttrName(w), Token::CloseAngle) => {
                assign_attr(&mut dom, &stack, w, String::new());
                phase = BuildPhase::Content;
                proof {
                    lemma_assign_inv(st0, w@, Seq::empty());
                }
            },
            (BuildPhase::AttrName(w), _) => {
                assign_attr(&mut dom, &stack, w, String::new());
                phase = BuildPhase::InTag;
                proof {
                    lemma_assign_inv(st0, w@, Seq::empty());
                }
            },
            (BuildPhase::AttrEq(w), Token::SingleQuote) | (
                BuildPhase::AttrEq(w),
                Token::DoubleQuote,
            ) => {
                phase = BuildPhase::AttrVal(w);
            },
            (BuildPhase::AttrEq(w), Token::Word(w2)) => {
                assign_attr(&mut dom, &stack, w, String::new());
                phase = BuildPhase::AttrName(w2.clone());
                proof {
                    lemma_assign_inv(st0, w@, Seq::empty());
                }
            },
            (BuildPhase::AttrEq(w), Token::CloseAngle) => {
                assign_attr(&mut dom, &stack, w, String::new());
                phase = BuildPhase::Content;
                proof {
                    lemma_assign_inv(st0, w@, Seq::empty());
                }
            },
            (BuildPhase::AttrEq(w), _) => {
                assign_attr(&mut dom, &stack, w, String::new());
                phase = BuildPhase::InTag;
                proof {
                    lemma_assign_inv(st0, w@, Seq::empty());
                }
            },
            (BuildPhase::AttrVal(w), Token::QuotedText(v)) => {
                phase = BuildPhase::AttrDone(w, v.clone());
            },
            (BuildPhase::AttrVal(w), Token::Word(w2)) => {
                assign_attr(&mut dom, &stack, w, String::new());
                phase = BuildPhase::AttrName(w2.clone());
                proof {
                    lemma_assign_inv(st0, w@, Seq::empty());
                }
            },
            (BuildPhase::AttrVal(w), Token::CloseAngle) => {
                assign_attr(&mut dom, &stack, w, String::new());
                phase = BuildPhase::Content;
                proof {
                    lemma_assign_inv(st0, w@, Seq::empty());
                }
            },
            (BuildPhase::AttrVal(w), _) => {
                assign_attr(&mut dom, &stack, w, String::new());
                phase = BuildPhase::InTag;
                proof {
                    lemma_assign_inv(st0, w@, Seq::empty());
                }
            },
            (BuildPhase::AttrDone(w, v), Token::Word(w2)) => {
                let ghost vv = v@;
                assign_attr(&mut dom, &stack, w, v);
                phase = BuildPhase::AttrName(w2.clone());
                proof {
                    lemma_assign_inv(st0, w@, vv);
                }
            },
            (BuildPhase::AttrDone(w, v), Token::CloseAngle) => {
                let ghost vv = v@;
                assign_attr(&mut dom, &stack, w, v);
                phase = BuildPhase::Content;
                proof {
                    lemma_assign_inv(st0, w@, vv);
                }
            },
            (BuildPhase::AttrDone(w, v), _) => {
                let ghost vv = v@;
                assign_attr(&mut dom, &stack, w, v);
                phase = BuildPhase::InTag;
                proof {
                    lemma_assign_inv(st0, w@, vv);
                }
            },
        }
        proof {
            assert(stepped == Ok::<BuildState, ParseError>(
                BuildState { dom: dom@, stack: stack@, phase: phase@ },
            ));
        }
        i += 1;
    }
    let ghost st_end = BuildState { dom: dom@, stack: stack@, phase: phase@ };
    proof {
        assert(b_run(tv, tv.len() as int) == Ok::<BuildState, ParseError>(st_end));
    }
    match phase {
        BuildPhase::TagExpect => Err(ParseError::UnknownTag),
        BuildPhase::CloseTagName => Err(ParseError::MismatchedCloseTag),
        BuildPhase::CloseTagEnd => Err(ParseError::MismatchedCloseTag),
        _ => {
            if stack.len() > 0 {
                Err(ParseError::UnclosedTag)
            } else {
                Ok(dom)
            }
        },
    }
}

/// Stores a finished attribute group on the innermost open element; with
/// no open element the group is dropped.
fn assign_attr(dom: &mut DOM, stack: &Vec<usize>, key: String, value: String)
    requires
        forall|k: int| 0 <= k < stack@.len() ==> (#[trigger] stack@[k]) < old(dom)@.nodes.len(),
    ensures
        final(dom)@ == bs_attr(
            BuildState { dom: old(dom)@, stack: stack@, phase: PhaseView::InTag },
            key@,
            value@,
        ),
{
    if stack.len() > 0 {
        let top = stack[stack.len() - 1];
        dom.set_attr(top, key, value);
    }
}

/// Assigning an attribute keeps the builder invariant, whatever the phase.
proof fn lemma_assign_inv(st: BuildState, key: Seq<char>, value: Seq<char>)
    requires
        bs_inv(st),
    ensures
        ({
            let d2 = bs_attr(st, key, value);
            &&& dom_wf(d2)
            &&& d2.nodes.len() == st.dom.nodes.len()
            &&& forall|k: int|
                0 <= k < st.stack.len() ==> ((#[trigger] d2.nodes[st.stack[k] as int].payload)
                    is Element <==> st.dom.nodes[st.stack[k] as int].payload is Element)
        }),
{
    if st.stack.len() > 0 {
        lemma_set_attr_wf(st.dom, st.stack.last(), key, value);
    }
}

/// What the parsing pipeline returns, as a function of the input
/// characters: tokenize, then build.
pub open spec fn spec_parse(s: Seq<char>) -> Result<DomView, ParseError> {
    match spec_tokenize(s) {
        Ok(tv) => spec_build(tv),
        Err(e) => Err(e),
    }
}

/// The flat rendering machine: it walks the tokens with the same control
/// flow as the tree builder, but keeps only a stack of open tags and the
/// string emitted so far.  What it emits is, by construction, the tag
/// nesting structure of the token stream: open tags, text runs and close
/// tags in document order, attributes omitted.
#[verifier::ext_equal]
pub ghost struct RenderState {
    pub phase: PhaseView,
    pub tags: Seq<TAG>,
    pub out: Seq<char>,
}

pub open spec fn r_init() -> RenderState {
    RenderState { phase: PhaseView::Content, tags: Seq::empty(), out: Seq::empty() }
}

/// One token of the flat rendering.  The phase transitions mirror the
/// tree builder's exactly; the string grows at an open tag, at a text run
/// inside an element, and at a matched close tag.
pub open spec fn r_step(rst: RenderState, t: TokenView) -> RenderState {
    match rst.phase {
        PhaseView::Content => match t {
            TokenView::OpenAngle => RenderState { phase: PhaseView::TagExpect, ..rst },
            TokenView::ClosingMarker => RenderState { phase: PhaseView::CloseTagName, ..rst },
            TokenView::Word(w) => if rst.tags.len() > 0 {
                RenderState { out: rst.out + w, ..rst }
            } else {
                rst
            },
            TokenView::QuotedText(w) => if rst.tags.len() > 0 {
                RenderState { out: rst.out + w, ..rst }
            } else {
                rst
            },
            _ => rst,
        },
        PhaseView::TagExpect => match t {
            TokenView::Word(w) => match spec_tag_of(w) {
                Some(tag) => RenderState {
                    phase: PhaseView::InTag,
                    tags: rst.tags.push(tag),
                    out: rst.out + open_tag_seq(tag),
                },
                None => rst,
            },
            _ => rst,
        },
        PhaseView::CloseTagName => match t {
            TokenView::Word(_) => RenderState { phase: PhaseView::CloseTagEnd, ..rst },
            _ => rst,
        },
        PhaseView::CloseTagEnd => match t {
            TokenView::CloseAngle => if rst.tags.len() > 0 {
                RenderState {
                    phase: PhaseView::Content,
                    tags: rst.tags.drop_last(),
                    out: rst.out + close_tag_seq(rst.tags.last()),
                }
            } else {
                rst
            },
            _ => rst,
        },
        PhaseView::InTag => match t {
            TokenView::Word(w) => RenderState { phase: PhaseView::AttrName(w), ..rst },
            TokenView::CloseAngle => RenderState { phase: PhaseView::Content, ..rst },
            _ => rst,
        },
        PhaseView::AttrName(_) => match t {
            TokenView::Equals => RenderState {
                phase: match rst.phase {
                    PhaseView::AttrName(w) => PhaseView::AttrEq(w),
                    _ => rst.phase,
                },
                ..rst
            },
            TokenView::Word(w2) => RenderState { phase: PhaseView::AttrName(w2), ..rst },
            TokenView::CloseAngle => RenderState { phase: PhaseView::Content, ..rst },
            _ => RenderState { phase: PhaseView::InTag, ..rst },
        },
        PhaseView::AttrEq(w) => match t {
            TokenView::SingleQuote => RenderState { phase: PhaseView::AttrVal(w), ..rst },
            TokenView::DoubleQuote => RenderState { phase: PhaseView::AttrVal(w), ..rst },
            TokenView::Word(w2) => RenderState { phase: PhaseView::AttrName(w2), ..rst },
            TokenView::CloseAngle => RenderState { phase: PhaseView::Content, ..rst },
            _ => RenderState { phase: PhaseView::InTag, ..rst },
        },
        PhaseView::AttrVal(w) => match t {
            TokenView::QuotedText(v) => RenderState { phase: PhaseView::AttrDone(w, v), ..rst },
            TokenView::Word(w2) => RenderState { phase: PhaseView::AttrName(w2), ..rst },
            TokenView::CloseAngle => RenderState { phase: PhaseView::Content, ..rst },
            _ => RenderState { phase: PhaseView::InTag, ..rst },
        },
        PhaseView::AttrDone(_, _) => match t {
            TokenView::Word(w2) => RenderState { phase: PhaseView::AttrName(w2), ..rst },
            TokenView::CloseAngle => RenderState { phase: PhaseView::Content, ..rst },
            _ => RenderState { phase: PhaseView::InTag, ..rst },
        },
    }
}

pub open spec fn r_run(toks: Seq<TokenView>, n: int) -> RenderState
    decreases n,
{
    if n <= 0 {
        r_init()
    } else {
        r_step(r_run(toks, n - 1), toks[n - 1])
    }
}

/// The tag nesting structure of a token stream, rendered directly.
pub open spec fn spec_render(toks: Seq<TokenView>) -> Seq<char> {
    r_run(toks, toks.len() as int).out
}

/// The open-tag stack of the flat rendering names exactly the tags of the
/// open elements on the builder's stack.
pub open spec fn stack_tags_ok(d: DomView, stack: Seq<usize>, tags: Seq<TAG>) -> bool {
    &&& tags.len() == stack.len()
    &&& forall|i: int| 0 <= i < stack.len() ==> (#[trigger] stack[i]) < d.nodes.len()
    &&& forall|i: int|
        0 <= i < stack.len() ==> (match d.nodes[#[trigger] stack[i] as int].payload {
            NodePayload::Element(e) => e.tag == tags[i],
            NodePayload::Text(_) => false,
        })
}

/// Everything that ties a builder state to the flat rendering state.
pub open spec fn render_inv(st: BuildState, rst: RenderState) -> bool {
    &&& dom_wf(st.dom)
    &&& st.phase is CloseTagEnd ==> st.stack.len() > 0
    &&& rst.phase == st.phase
    &&& stack_tags_ok(st.dom, st.stack, rst.tags)
    &&& spine_ok(st.dom, st.stack)
    &&& rst.out == partial_string(st.dom, st.stack)
}

proof fn lemma_render_run(toks: Seq<TokenView>, n: int)
    requires
        0 <= n <= toks.len(),
        toks.len() <= usize::MAX,
        b_run(toks, n) is Ok,
    ensures
        render_inv(b_run(toks, n)->Ok_0, r_run(toks, n)),
        b_run(toks, n)->Ok_0.dom.nodes.len() <= n,
    decreases n,
{
    if n == 0 {
        assert(partial_string(b_init().dom, Seq::empty()) == Seq::<char>::empty());
        assert(render_inv(b_init(), r_init()));
    } else {
        if b_run(toks, n - 1) is Err {
            lemma_b_run_err(toks, n - 1, n);
        }
        lemma_render_run(toks, n - 1);
        let st = b_run(toks, n - 1)->Ok_0;
        let rst = r_run(toks, n - 1);
        let t = toks[n - 1];
        assert(b_run(toks, n) == b_step(st, t));
        assert(r_run(toks, n) == r_step(rst, t));
        let st2 = b_run(toks, n)->Ok_0;
        let rst2 = r_run(toks, n);
        match st.phase {
            PhaseView::Content => {
                match t {
                    TokenView::Word(w) => {
                        if st.stack.len() > 0 {
                            lemma_partial_text(st.dom, st.stack, w);
                            lemma_new_node_wf(st.dom, Some(st.stack.last()), NodePayload::Text(w));
                        }
                    },
                    TokenView::QuotedText(w) => {
                        if st.stack.len() > 0 {
                            lemma_partial_text(st.dom, st.stack, w);
                            lemma_new_node_wf(st.dom, Some(st.stack.last()), NodePayload::Text(w));
                        }
                    },
                    _ => {},
                }
            },
            PhaseView::TagExpect => {
                match t {
                    TokenView::Word(w) => {
                        match spec_tag_of(w) {
                            Some(tag) => {
                                let parent = if st.stack.len() > 0 {
                                    Some(st.stack.last())
                                } else {
                                    None
                                };
                                lemma_partial_open(st.dom, st.stack, tag);
                                lemma_new_node_wf(
                                    st.dom,
                                    parent,
                                    NodePayload::Element(ElementView { tag, attrs: Map::empty() }),
                                );
                            },
                            None => {},
                        }
                    },
                    _ => {},
                }
            },
            PhaseView::CloseTagName => {},
            PhaseView::CloseTagEnd => {
                match t {
                    TokenView::CloseAngle => {
                        assert(node_tag(st.dom.nodes, st.stack.last() as int) == rst.tags.last());
                        lemma_partial_close(st.dom, st.stack);
                    },
                    _ => {},
                }
            },
            PhaseView::InTag => {},
            PhaseView::AttrName(w) => {
                lemma_attr_case(st, rst, w, Seq::empty());
            },
            PhaseView::AttrEq(w) => {
                lemma_attr_case(st, rst, w, Seq::empty());
            },
            PhaseView::AttrVal(w) => {
                lemma_attr_case(st, rst, w, Seq::empty());
            },
            PhaseView::AttrDone(w, v) => {
                lemma_attr_case(st, rst, w, v);
            },
        }
    }
}

/// An attribute assignment changes neither the spine nor the rendering.
proof fn lemma_attr_case(st: BuildState, rst: RenderState, key: Seq<char>, value: Seq<char>)
    requires
        render_inv(st, rst),
    ensures
        ({
            let d2 = bs_attr(st, key, value);
            &&& dom_wf(d2)
            &&& d2.nodes.len() == st.dom.nodes.len()
            &&& stack_tags_ok(d2, st.stack, rst.tags)
            &&& spine_ok(d2, st.stack)
            &&& partial_string(d2, st.stack) == rst.out
        }),
{
    if st.stack.len() > 0 {
        lemma_set_attr_wf(st.dom, st.stack.last(), key, value);
        let d2 = bs_attr(st, key, value);
        lemma_partial_skeleton(st.dom, d2, st.stack);
        assert forall|i: int| 0 <= i < st.stack.len() implies (match d2.nodes[#[trigger] st
            .stack[i] as int].payload {
            NodePayload::Element(e) => e.tag == rst.tags[i],
            NodePayload::Text(_) => false,
        }) by {
            assert(payload_skeleton_eq(
                st.dom.nodes[st.stack[i] as int].payload,
                d2.nodes[st.stack[i] as int].payload,
            ));
        }
    }
}

/// Serializing reproduces the tag nesting structure of the token stream:
/// a successfully built document prints exactly the string that the flat
/// rendering of its tokens emits, attributes omitted.
pub proof fn lemma_build_renders(toks: Seq<TokenView>)
    requires
        toks.len() <= usize::MAX,
        spec_build(toks) is Ok,
    ensures
        dom_string(spec_build(toks)->Ok_0) == spec_render(toks),
{
    lemma_render_run(toks, toks.len() as int);
}

/// One character makes at most two tokens.
proof fn lemma_lex_token_bound(s: Seq<char>, n: int)
    requires
        0 <= n,
    ensures
        lex_upto(s, n).out.len() <= 2 * n,
    decreases n,
{
    if n > 0 {
        lemma_lex_token_bound(s, n - 1);
    }
}

/// The parsing pipeline as a whole reproduces the tag nesting structure
/// of the input: whenever a text parses, the parsed document serializes
/// to exactly the flat rendering of the input's tokens — open tags, text
/// runs and close tags in document order, attributes omitted.
pub proof fn lemma_parse_renders(s: Seq<char>)
    requires
        2 * s.len() + 1 <= usize::MAX,
        spec_parse(s) is Ok,
    ensures
        spec_tokenize(s) is Ok,
        dom_string(spec_parse(s)->Ok_0) == spec_render(spec_tokenize(s)->Ok_0),
{
    lemma_lex_token_bound(s, s.len() as int);
    lemma_build_renders(spec_tokenize(s)->Ok_0);
}

/// Parsing the empty input succeeds with the empty document: no root,
/// and both lookups are absent for every key.
pub proof fn lemma_parse_empty(s: Seq<char>, key: Seq<char>)
    requires
        s.len() == 0,
    ensures
        spec_parse(s) == Ok::<DomView, ParseError>(b_init().dom),
        b_init().dom.root is None,
        !b_init().dom.ids.contains_key(key),
        !b_init().dom.classes.contains_key(key),
{
    assert(lex_upto(s, s.len() as int) == lex_init());
    assert(spec_tokenize(s) == Ok::<Seq<TokenView>, ParseError>(Seq::empty()));
    assert(b_run(Seq::<TokenView>::empty(), 0) == Ok::<BuildState, ParseError>(b_init()));
}

/// The sole entry point of the pipeline: tokenizes the markup text and
/// builds the document tree with its indices, or reports the first error.
pub fn parse_string_to_dom(body: &str) -> (r: Result<DOM, ParseError>)
    ensures
        match r {
            Ok(d) => spec_parse(body@) == Ok::<DomView, ParseError>(d@) && dom_wf(d@),
            Err(e) => spec_parse(body@) == Err::<DomView, ParseError>(e),
        },
{
    match tokenize(body) {
        Ok(toks) => build(&toks),
        Err(e) => Err(e),
    }
}

} // verus!
